//! The breadth-first walk below a root directory, as a state machine that its
//! caller drives: the caller asks for the next raw entry, looks at it on the
//! filesystem, and reports what it found.
//!
//! The frontier is held level by level in two buffers: the listings of the
//! level being expanded, and those gathered for the next level. A directory
//! that cannot be listed is recorded as a directory and not expanded; the
//! walk goes on.
use vstd::prelude::*;

verus! {

/// What the caller found at a raw entry handed out by [`Walk::next_entry`].
pub enum EntryKind {
    /// The path could not be made canonical: the entry is skipped.
    Unresolved,
    /// The entry's type could not be read: the entry is skipped.
    UnknownType,
    /// A regular file, with its canonical path.
    File(String),
    /// A directory, with its canonical path and the raw paths of its entries.
    Directory(String, Vec<String>),
    /// A directory, with its canonical path, whose entries could not be listed.
    Unlisted(String),
    /// Neither a regular file nor a directory (a link, a device, a socket,
    /// a fifo): ignored.
    Other,
}

/// The texts of a sequence of strings.
pub open spec fn texts(v: Seq<String>) -> Seq<Seq<char>> {
    v.map_values(|p: String| p@)
}

/// The state of a walk.
pub struct Walk {
    current: Vec<String>,
    pos: usize,
    next: Vec<String>,
    files: Vec<String>,
    directories: Vec<String>,
}

impl Walk {
    /// Raw entries not yet handed out, in the order in which they will be.
    pub closed spec fn pending(&self) -> Seq<Seq<char>> {
        texts(self.current@).skip(self.pos as int) + texts(self.next@)
    }

    /// Canonical paths of the regular files found so far, in order.
    pub closed spec fn found_files(&self) -> Seq<Seq<char>> {
        texts(self.files@)
    }

    /// Canonical paths of the directories found so far, in order.
    pub closed spec fn found_directories(&self) -> Seq<Seq<char>> {
        texts(self.directories@)
    }

    /// The read position lies within the level being expanded.
    pub closed spec fn wf(&self) -> bool {
        self.pos <= self.current@.len()
    }

    /// Starts a walk from the raw paths of the root's entries; the root
    /// itself is never recorded.
    pub fn new(root_entries: Vec<String>) -> (r: Walk)
        ensures
            r.wf(),
            r.pending() == texts(root_entries@),
            r.found_files() == Seq::<Seq<char>>::empty(),
            r.found_directories() == Seq::<Seq<char>>::empty(),
    {
        let r = Walk {
            current: root_entries,
            pos: 0,
            next: Vec::new(),
            files: Vec::new(),
            directories: Vec::new(),
        };
        assert(r.pending() =~= texts(root_entries@));
        assert(r.found_files() =~= Seq::<Seq<char>>::empty());
        assert(r.found_directories() =~= Seq::<Seq<char>>::empty());
        r
    }

    /// Whether every raw entry has been handed out: the walk is over.
    pub fn is_done(&self) -> (r: bool)
        requires
            self.wf(),
        ensures
            r == (self.pending().len() == 0),
    {
        self.pos == self.current.len() && self.next.len() == 0
    }

    /// Hands out the next raw entry in breadth-first order, or `None` when
    /// the walk is over.
    pub fn next_entry(&mut self) -> (r: Option<String>)
        requires
            old(self).wf(),
        ensures
            final(self).wf(),
            final(self).found_files() == old(self).found_files(),
            final(self).found_directories() == old(self).found_directories(),
            old(self).pending().len() == 0 ==> r is None && final(self).pending() == old(self).pending(),
            old(self).pending().len() > 0 ==> (r matches Some(p) && p@ == old(self).pending()[0]
                && final(self).pending() == old(self).pending().drop_first()),
    {
        if self.pos == self.current.len() {
            if self.next.len() == 0 {
                return None;
            }
            let ghost before = self.pending();
            assert(texts(self.current@).skip(self.pos as int) =~= Seq::<Seq<char>>::empty());
            self.current = Vec::new();
            std::mem::swap(&mut self.current, &mut self.next);
            self.pos = 0;
            assert(self.pending() =~= before);
        }
        let ghost before = self.pending();
        let p = self.current[self.pos].clone();
        self.pos = self.pos + 1;
        assert(self.pending() =~= before.drop_first());
        Some(p)
    }

    /// Takes in what the caller found at the entry last handed out.
    pub fn record(&mut self, kind: EntryKind)
        requires
            old(self).wf(),
        ensures
            final(self).wf(),
            match kind {
                EntryKind::File(p) => final(self).found_files() == old(self).found_files().push(p@)
                    && final(self).found_directories() == old(self).found_directories()
                    && final(self).pending() == old(self).pending(),
                EntryKind::Directory(p, entries) => final(self).found_files() == old(self).found_files()
                    && final(self).found_directories() == old(self).found_directories().push(p@)
                    && final(self).pending() == old(self).pending() + texts(entries@),
                EntryKind::Unlisted(p) => final(self).found_files() == old(self).found_files()
                    && final(self).found_directories() == old(self).found_directories().push(p@)
                    && final(self).pending() == old(self).pending(),
                _ => final(self).found_files() == old(self).found_files()
                    && final(self).found_directories() == old(self).found_directories()
                    && final(self).pending() == old(self).pending(),
            },
    {
        let ghost files0 = self.found_files();
        let ghost dirs0 = self.found_directories();
        let ghost pending0 = self.pending();
        match kind {
            EntryKind::File(p) => {
                let ghost v = p@;
                self.files.push(p);
                assert(self.found_files() =~= files0.push(v));
            },
            EntryKind::Directory(p, entries) => {
                let ghost v = p@;
                let ghost added = texts(entries@);
                self.directories.push(p);
                assert(self.found_directories() =~= dirs0.push(v));
                let mut entries = entries;
                let ghost next0 = texts(self.next@);
                self.next.append(&mut entries);
                assert(texts(self.next@) =~= next0 + added);
                assert(self.pending() =~= pending0 + added);
            },
            EntryKind::Unlisted(p) => {
                let ghost v = p@;
                self.directories.push(p);
                assert(self.found_directories() =~= dirs0.push(v));
            },
            _ => {},
        }
    }

    /// Ends the walk: the canonical paths of the files, then of the
    /// directories, each in the order found.
    pub fn finish(self) -> (r: (Vec<String>, Vec<String>))
        ensures
            texts(r.0@) == self.found_files(),
            texts(r.1@) == self.found_directories(),
    {
        (self.files, self.directories)
    }
}

} // verus!

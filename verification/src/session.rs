//! The files that `StartFile` opens and `EndFile` closes, and which file
//! each `ReadFile` and `WriteFile` uses: a state machine over which of the
//! two session files (one for reading, one for writing) is open. The
//! application holds the files; this decides what it does with them.

use vstd::prelude::*;
use crate::command_block::{FILE_MODE_APPEND, FILE_MODE_READ, FILE_MODE_WRITE};

verus! {

/// How a file is opened.
#[derive(Debug, Clone, Copy, PartialEq, Eq)]
pub enum FileOpen {
    /// For reading.
    Read,
    /// For writing: created if missing, emptied if present.
    Truncate,
    /// For appending: created if missing.
    Append,
    /// For writing from its start: created if missing, its bytes kept.
    Overwrite,
}

/// Which file a transfer uses.
#[derive(Debug, Clone, Copy, PartialEq, Eq)]
pub enum FileUse {
    /// The session file, taken out for the transfer.
    Session,
    /// A file opened for this transfer alone, closed after it.
    Own(FileOpen),
}

/// Which session files are open.
#[derive(Debug, Clone, Copy, PartialEq, Eq)]
pub struct FileSession {
    pub reading: bool,
    pub writing: bool,
}

impl FileSession {
    /// No file open.
    pub fn new() -> (s: Self)
        ensures
            !s.reading && !s.writing,
    {
        FileSession { reading: false, writing: false }
    }

    /// `StartFile` with `mode`: the files left open once the one that the
    /// mode replaces is closed (reading closes the reading file, writing
    /// the writing file; appending closes nothing yet), and how the new file
    /// is opened.
    pub fn start_file(self, mode: u32) -> (r: (FileSession, FileOpen))
        requires
            mode == FILE_MODE_READ || mode == FILE_MODE_WRITE || mode == FILE_MODE_APPEND,
        ensures
            mode == FILE_MODE_READ ==> r == (FileSession { reading: false, writing: self.writing }, FileOpen::Read),
            mode == FILE_MODE_WRITE ==> r == (FileSession { reading: self.reading, writing: false }, FileOpen::Truncate),
            mode == FILE_MODE_APPEND ==> r == (self, FileOpen::Append),
    {
        if mode == FILE_MODE_READ {
            (FileSession { reading: false, writing: self.writing }, FileOpen::Read)
        } else if mode == FILE_MODE_WRITE {
            (FileSession { reading: self.reading, writing: false }, FileOpen::Truncate)
        } else {
            (self, FileOpen::Append)
        }
    }

    /// After the file of `StartFile` with `mode` was opened (`ok`) or not:
    /// an opened file becomes the reading file (reading) or the writing
    /// file (writing, appending), replacing any; a failed open changes
    /// nothing.
    pub fn opened(self, mode: u32, ok: bool) -> (s: FileSession)
        ensures
            mode == FILE_MODE_READ ==> s == (FileSession { reading: self.reading || ok, writing: self.writing }),
            mode != FILE_MODE_READ ==> s == (FileSession { reading: self.reading, writing: self.writing || ok }),
    {
        if mode == FILE_MODE_READ {
            FileSession { reading: self.reading || ok, writing: self.writing }
        } else {
            FileSession { reading: self.reading, writing: self.writing || ok }
        }
    }

    /// `ReadFile`: the reading file when one is open (taken out meanwhile),
    /// else a file opened for reading for this transfer alone.
    pub fn read_file(self) -> (r: (FileSession, FileUse))
        ensures
            self.reading ==> r == (FileSession { reading: false, writing: self.writing }, FileUse::Session),
            !self.reading ==> r == (self, FileUse::Own(FileOpen::Read)),
    {
        if self.reading {
            (FileSession { reading: false, writing: self.writing }, FileUse::Session)
        } else {
            (self, FileUse::Own(FileOpen::Read))
        }
    }

    /// `WriteFile`: the writing file when one is open (taken out meanwhile),
    /// else a file opened for this transfer alone, its bytes kept.
    pub fn write_file(self) -> (r: (FileSession, FileUse))
        ensures
            self.writing ==> r == (FileSession { reading: self.reading, writing: false }, FileUse::Session),
            !self.writing ==> r == (self, FileUse::Own(FileOpen::Overwrite)),
    {
        if self.writing {
            (FileSession { reading: self.reading, writing: false }, FileUse::Session)
        } else {
            (self, FileUse::Own(FileOpen::Overwrite))
        }
    }

    /// After a `ReadFile` that used `used`: a session file goes back only
    /// when the transfer succeeded (`ok`); on failure it is dropped.
    pub fn read_done(self, used: FileUse, ok: bool) -> (s: FileSession)
        ensures
            s == (match used {
                FileUse::Session => FileSession { reading: self.reading || ok, writing: self.writing },
                FileUse::Own(_) => self,
            }),
    {
        match used {
            FileUse::Session => FileSession { reading: self.reading || ok, writing: self.writing },
            FileUse::Own(_) => self,
        }
    }

    /// After a `WriteFile` that used `used`: a session file goes back only
    /// when the transfer succeeded (`ok`); on failure it is dropped.
    pub fn write_done(self, used: FileUse, ok: bool) -> (s: FileSession)
        ensures
            s == (match used {
                FileUse::Session => FileSession { reading: self.reading, writing: self.writing || ok },
                FileUse::Own(_) => self,
            }),
    {
        match used {
            FileUse::Session => FileSession { reading: self.reading, writing: self.writing || ok },
            FileUse::Own(_) => self,
        }
    }

    /// `EndFile` with `mode`: reading closes the reading file, writing and
    /// appending close the writing file.
    pub fn end_file(self, mode: u32) -> (s: FileSession)
        requires
            mode == FILE_MODE_READ || mode == FILE_MODE_WRITE || mode == FILE_MODE_APPEND,
        ensures
            mode == FILE_MODE_READ ==> s == (FileSession { reading: false, writing: self.writing }),
            mode != FILE_MODE_READ ==> s == (FileSession { reading: self.reading, writing: false }),
    {
        if mode == FILE_MODE_READ {
            FileSession { reading: false, writing: self.writing }
        } else {
            FileSession { reading: self.reading, writing: false }
        }
    }
}

} // verus!

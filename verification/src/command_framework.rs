//! The seventeen Goldleaf commands: what each request carries, and the
//! response each outcome gets.
//!
//! A command is handled in three steps. Its arguments are decoded from the
//! block (`decode_request`); the host does the file-system work that the
//! request asks for; the response for that outcome is written into the
//! block (the `respond_*` functions).

use vstd::prelude::*;
use crate::buffer::{utf8_text, string_frame as frame, lemma_read_back_string, lemma_read_back_u32, lemma_read_back_u64, read_end, string_bytes_at, string_end_at, string_frame, u32_at, u32_le, u64_at, u64_le};
use crate::command_block::{
    CommandBlock, FILE_MODE_APPEND, FILE_MODE_READ, FILE_MODE_WRITE, PATH_TYPE_DIRECTORY,
    PATH_TYPE_FILE, PATH_TYPE_INVALID, RESULT_EXCEPTION, RESULT_INVALID_FILE_MODE,
    RESULT_INVALID_INDEX, RESULT_SELECTION_CANCELLED, RESULT_SUCCESS, response_header,
};
use crate::config::{pairs_view, strings_view};
use crate::filesystem::{
    denormalize_path_for, denormalized, drive_label_for, drive_label_of, is_windows,
    normalize_path_for, normalized,
};

verus! {

/// The largest buffer a read or a write may ask for: 1 GiB.
pub const MAX_BUFFER_SIZE: u64 = 0x4000_0000;

/// Whether `mode` is one of the three file modes.
pub fn is_valid_file_mode(mode: u32) -> (r: bool)
    ensures
        r == (mode == FILE_MODE_READ || mode == FILE_MODE_WRITE || mode == FILE_MODE_APPEND),
{
    mode == FILE_MODE_READ || mode == FILE_MODE_WRITE || mode == FILE_MODE_APPEND
}

/// A decoded command, its paths already in the host's form.
#[derive(Debug, PartialEq, Eq)]
pub enum Request {
    GetDriveCount,
    GetDriveInfo { index: u32 },
    StatPath { path: String },
    GetFileCount { path: String },
    GetFile { path: String, index: u32 },
    GetDirectoryCount { path: String },
    GetDirectory { path: String, index: u32 },
    StartFile { path: String, mode: u32 },
    ReadFile { path: String, offset: u64, size: u64 },
    WriteFile { path: String, size: u64 },
    EndFile { mode: u32 },
    Create { path: String, path_type: u32 },
    Delete { path: String },
    Rename { path: String, new_name: String },
    GetSpecialPathCount,
    GetSpecialPath { index: u32 },
    SelectFile,
}

/// A decoded command with its strings as characters.
pub enum RequestView {
    GetDriveCount,
    GetDriveInfo { index: u32 },
    StatPath { path: Seq<char> },
    GetFileCount { path: Seq<char> },
    GetFile { path: Seq<char>, index: u32 },
    GetDirectoryCount { path: Seq<char> },
    GetDirectory { path: Seq<char>, index: u32 },
    StartFile { path: Seq<char>, mode: u32 },
    ReadFile { path: Seq<char>, offset: u64, size: u64 },
    WriteFile { path: Seq<char>, size: u64 },
    EndFile { mode: u32 },
    Create { path: Seq<char>, path_type: u32 },
    Delete { path: Seq<char> },
    Rename { path: Seq<char>, new_name: Seq<char> },
    GetSpecialPathCount,
    GetSpecialPath { index: u32 },
    SelectFile,
}

impl View for Request {
    type V = RequestView;

    open spec fn view(&self) -> RequestView {
        match self {
            Request::GetDriveCount => RequestView::GetDriveCount,
            Request::GetDriveInfo { index } => RequestView::GetDriveInfo { index: *index },
            Request::StatPath { path } => RequestView::StatPath { path: path@ },
            Request::GetFileCount { path } => RequestView::GetFileCount { path: path@ },
            Request::GetFile { path, index } => RequestView::GetFile { path: path@, index: *index },
            Request::GetDirectoryCount { path } => RequestView::GetDirectoryCount { path: path@ },
            Request::GetDirectory { path, index } => RequestView::GetDirectory {
                path: path@,
                index: *index,
            },
            Request::StartFile { path, mode } => RequestView::StartFile { path: path@, mode: *mode },
            Request::ReadFile { path, offset, size } => RequestView::ReadFile {
                path: path@,
                offset: *offset,
                size: *size,
            },
            Request::WriteFile { path, size } => RequestView::WriteFile { path: path@, size: *size },
            Request::EndFile { mode } => RequestView::EndFile { mode: *mode },
            Request::Create { path, path_type } => RequestView::Create {
                path: path@,
                path_type: *path_type,
            },
            Request::Delete { path } => RequestView::Delete { path: path@ },
            Request::Rename { path, new_name } => RequestView::Rename {
                path: path@,
                new_name: new_name@,
            },
            Request::GetSpecialPathCount => RequestView::GetSpecialPathCount,
            Request::GetSpecialPath { index } => RequestView::GetSpecialPath { index: *index },
            Request::SelectFile => RequestView::SelectFile,
        }
    }
}

/// The string at `p`, as `read_string` gives it.
pub open spec fn str_at(d: Seq<u8>, p: nat) -> Seq<char> {
    utf8_text(string_bytes_at(d, p))
}

/// The path at `p`, in the host's form.
pub open spec fn path_at(d: Seq<u8>, p: nat, windows: bool) -> Seq<char> {
    denormalized(str_at(d, p), windows)
}

/// The request that command `id` carries in `d` from position `p` on.
pub open spec fn request_of(id: u32, d: Seq<u8>, p: nat, windows: bool) -> Option<RequestView> {
    let e = string_end_at(d, p);
    if id == 1 {
        Some(RequestView::GetDriveCount)
    } else if id == 2 {
        Some(RequestView::GetDriveInfo { index: u32_at(d, p) })
    } else if id == 3 {
        Some(RequestView::StatPath { path: path_at(d, p, windows) })
    } else if id == 4 {
        Some(RequestView::GetFileCount { path: path_at(d, p, windows) })
    } else if id == 5 {
        Some(RequestView::GetFile { path: path_at(d, p, windows), index: u32_at(d, e) })
    } else if id == 6 {
        Some(RequestView::GetDirectoryCount { path: path_at(d, p, windows) })
    } else if id == 7 {
        Some(RequestView::GetDirectory { path: path_at(d, p, windows), index: u32_at(d, e) })
    } else if id == 8 {
        Some(RequestView::StartFile { path: path_at(d, p, windows), mode: u32_at(d, e) })
    } else if id == 9 {
        Some(
            RequestView::ReadFile {
                path: path_at(d, p, windows),
                offset: u64_at(d, e),
                size: u64_at(d, read_end(d, e, 8)),
            },
        )
    } else if id == 10 {
        Some(RequestView::WriteFile { path: path_at(d, p, windows), size: u64_at(d, e) })
    } else if id == 11 {
        Some(RequestView::EndFile { mode: u32_at(d, p) })
    } else if id == 12 {
        Some(RequestView::Create { path: path_at(d, p, windows), path_type: u32_at(d, e) })
    } else if id == 13 {
        Some(RequestView::Delete { path: path_at(d, p, windows) })
    } else if id == 14 {
        Some(RequestView::Rename { path: path_at(d, p, windows), new_name: path_at(d, e, windows) })
    } else if id == 15 {
        Some(RequestView::GetSpecialPathCount)
    } else if id == 16 {
        Some(RequestView::GetSpecialPath { index: u32_at(d, p) })
    } else if id == 17 {
        Some(RequestView::SelectFile)
    } else {
        None
    }
}

/// Where the read position ends after the arguments of command `id` are
/// read from position `p`: unchanged for a command without arguments and
/// for an unknown one.
pub open spec fn request_end(id: u32, d: Seq<u8>, p: nat) -> nat {
    let e = string_end_at(d, p);
    if id == 2 || id == 11 || id == 16 {
        read_end(d, p, 4)
    } else if id == 3 || id == 4 || id == 6 || id == 13 {
        e
    } else if id == 5 || id == 7 || id == 8 || id == 12 {
        read_end(d, e, 4)
    } else if id == 9 {
        read_end(d, read_end(d, e, 8), 8)
    } else if id == 10 {
        read_end(d, e, 8)
    } else if id == 14 {
        string_end_at(d, e)
    } else {
        p
    }
}

fn read_path(b: &mut CommandBlock, windows: bool) -> (path: String)
    ensures
        path@ == path_at(old(b).input(), old(b).cursor(), windows),
        final(b).cursor() == string_end_at(old(b).input(), old(b).cursor()),
        final(b).input() == old(b).input(),
        final(b).output() == old(b).output(),
{
    let raw = b.read_string();
    denormalize_path_for(raw.as_str(), windows)
}

/// Decodes the arguments of command `id` from the block, for the given
/// kind of host; `None` for an unknown command.
pub fn decode_request(id: u32, b: &mut CommandBlock, windows: bool) -> (r: Option<Request>)
    ensures
        match r {
            Some(req) => request_of(id, old(b).input(), old(b).cursor(), windows) == Some(req@),
            None => request_of(id, old(b).input(), old(b).cursor(), windows).is_none(),
        },
        final(b).cursor() == request_end(id, old(b).input(), old(b).cursor()),
        final(b).input() == old(b).input(),
        final(b).output() == old(b).output(),
{
    if id == 1 {
        Some(Request::GetDriveCount)
    } else if id == 2 {
        Some(Request::GetDriveInfo { index: b.read_u32() })
    } else if id == 3 {
        Some(Request::StatPath { path: read_path(b, windows) })
    } else if id == 4 {
        Some(Request::GetFileCount { path: read_path(b, windows) })
    } else if id == 5 {
        let path = read_path(b, windows);
        Some(Request::GetFile { path, index: b.read_u32() })
    } else if id == 6 {
        Some(Request::GetDirectoryCount { path: read_path(b, windows) })
    } else if id == 7 {
        let path = read_path(b, windows);
        Some(Request::GetDirectory { path, index: b.read_u32() })
    } else if id == 8 {
        let path = read_path(b, windows);
        Some(Request::StartFile { path, mode: b.read_u32() })
    } else if id == 9 {
        let path = read_path(b, windows);
        let offset = b.read_u64();
        let size = b.read_u64();
        Some(Request::ReadFile { path, offset, size })
    } else if id == 10 {
        let path = read_path(b, windows);
        Some(Request::WriteFile { path, size: b.read_u64() })
    } else if id == 11 {
        Some(Request::EndFile { mode: b.read_u32() })
    } else if id == 12 {
        let path = read_path(b, windows);
        Some(Request::Create { path, path_type: b.read_u32() })
    } else if id == 13 {
        Some(Request::Delete { path: read_path(b, windows) })
    } else if id == 14 {
        let path = read_path(b, windows);
        let new_name = read_path(b, windows);
        Some(Request::Rename { path, new_name })
    } else if id == 15 {
        Some(Request::GetSpecialPathCount)
    } else if id == 16 {
        Some(Request::GetSpecialPath { index: b.read_u32() })
    } else if id == 17 {
        Some(Request::SelectFile)
    } else {
        None
    }
}

/// Decodes the arguments of command `id` for this host; `None` for an
/// unknown command, which is not handled.
pub fn handle(id: u32, b: &mut CommandBlock) -> (r: Option<Request>)
    ensures
        match r {
            Some(req) => request_of(id, old(b).input(), old(b).cursor(), true) == Some(req@)
                || request_of(id, old(b).input(), old(b).cursor(), false) == Some(req@),
            None => request_of(id, old(b).input(), old(b).cursor(), true).is_none(),
        },
        r.is_none() <==> !(1 <= id <= 17),
        final(b).cursor() == request_end(id, old(b).input(), old(b).cursor()),
        final(b).input() == old(b).input(),
        final(b).output() == old(b).output(),
{
    decode_request(id, b, is_windows())
}

/// A count: how many drives, files, directories or special paths.
pub fn respond_count(b: &mut CommandBlock, count: usize)
    ensures
        final(b).output() == old(b).output() + response_header(RESULT_SUCCESS) + u32_le(count as u32),
        final(b).input() == old(b).input(),
        final(b).cursor() == old(b).cursor(),
{
    b.response_start();
    b.write_u32(count as u32);
}

/// The answer to `GetDriveInfo`: the drive's label and path and two zero
/// sizes, or an invalid-index failure.
pub open spec fn drive_info_response(
    index: u32,
    drives: Seq<Seq<char>>,
    home: Seq<char>,
    windows: bool,
) -> Seq<u8> {
    if index < drives.len() {
        let d = drives[index as int];
        response_header(RESULT_SUCCESS) + string_frame(drive_label_of(d, home, windows))
            + string_frame(d) + u64_le(0) + u64_le(0)
    } else {
        response_header(RESULT_INVALID_INDEX)
    }
}

/// Answers `GetDriveInfo` for drive `index` of `drives`.
pub fn respond_drive_info(b: &mut CommandBlock, index: u32, drives: &[String], home: &str, windows: bool)
    ensures
        final(b).output() == old(b).output() + drive_info_response(index, strings_view(drives@), home@, windows),
        final(b).input() == old(b).input(),
        final(b).cursor() == old(b).cursor(),
{
    if (index as usize) < drives.len() {
        let drive = &drives[index as usize];
        let label = drive_label_for(drive.as_str(), home, windows);
        b.response_start();
        b.write_string(label.as_str());
        b.write_string(drive.as_str());
        b.write_u64(0);
        b.write_u64(0);
        assert(b.output() =~= old(b).output() + drive_info_response(index, strings_view(drives@), home@, windows));
    } else {
        b.respond_failure(RESULT_INVALID_INDEX);
    }
}

/// What `Create` makes at a path.
#[derive(Debug, Clone, Copy, PartialEq, Eq)]
pub enum CreateKind {
    /// A new, empty file.
    File,
    /// A new directory.
    Directory,
    /// Nothing (an unknown path type), which counts as done.
    Nothing,
}

/// What `Create` makes for a path type.
pub fn create_kind(path_type: u32) -> (k: CreateKind)
    ensures
        k == (if path_type == PATH_TYPE_FILE {
            CreateKind::File
        } else if path_type == PATH_TYPE_DIRECTORY {
            CreateKind::Directory
        } else {
            CreateKind::Nothing
        }),
{
    if path_type == PATH_TYPE_FILE {
        CreateKind::File
    } else if path_type == PATH_TYPE_DIRECTORY {
        CreateKind::Directory
    } else {
        CreateKind::Nothing
    }
}

/// What the host found at a path.
#[derive(Debug, Clone, Copy, PartialEq, Eq)]
pub enum PathStat {
    /// A file of the given size.
    File(u64),
    /// A directory.
    Directory,
    /// Nothing that can be read.
    Missing,
}

/// The path type and size reported for a `PathStat`.
pub open spec fn stat_fields(stat: PathStat) -> (u32, u64) {
    match stat {
        PathStat::File(size) => (PATH_TYPE_FILE, size),
        PathStat::Directory => (PATH_TYPE_DIRECTORY, 0),
        PathStat::Missing => (PATH_TYPE_INVALID, 0),
    }
}

/// Answers `StatPath`: the path type, then the size (files only).
pub fn respond_stat(b: &mut CommandBlock, stat: PathStat)
    ensures
        final(b).output() == old(b).output() + response_header(RESULT_SUCCESS) + u32_le(
            stat_fields(stat).0,
        ) + u64_le(stat_fields(stat).1),
        final(b).input() == old(b).input(),
        final(b).cursor() == old(b).cursor(),
{
    let (path_type, size) = match stat {
        PathStat::File(size) => (PATH_TYPE_FILE, size),
        PathStat::Directory => (PATH_TYPE_DIRECTORY, 0u64),
        PathStat::Missing => (PATH_TYPE_INVALID, 0u64),
    };
    b.response_start();
    b.write_u32(path_type);
    b.write_u64(size);
}

/// The answer to `GetFile` or `GetDirectory`: the name at `index`, or an
/// invalid-index failure.
pub open spec fn entry_response(index: u32, entries: Seq<Seq<char>>) -> Seq<u8> {
    if index < entries.len() {
        response_header(RESULT_SUCCESS) + string_frame(entries[index as int])
    } else {
        response_header(RESULT_INVALID_INDEX)
    }
}

/// Answers `GetFile` or `GetDirectory` with entry `index` of `entries`.
pub fn respond_entry(b: &mut CommandBlock, index: u32, entries: &[String])
    ensures
        final(b).output() == old(b).output() + entry_response(index, strings_view(entries@)),
        final(b).input() == old(b).input(),
        final(b).cursor() == old(b).cursor(),
{
    if (index as usize) < entries.len() {
        b.response_start();
        b.write_string(entries[index as usize].as_str());
    } else {
        b.respond_failure(RESULT_INVALID_INDEX);
    }
}

/// The answer to `GetSpecialPath`: the name and the path (in the form the
/// Switch is shown) at `index`, or an invalid-index failure.
pub open spec fn special_path_response(
    index: u32,
    entries: Seq<(Seq<char>, Seq<char>)>,
    windows: bool,
) -> Seq<u8> {
    if index < entries.len() {
        response_header(RESULT_SUCCESS) + string_frame(entries[index as int].0) + string_frame(
            normalized(entries[index as int].1, windows),
        )
    } else {
        response_header(RESULT_INVALID_INDEX)
    }
}

/// Answers `GetSpecialPath` with entry `index` of the special paths.
pub fn respond_special_path(b: &mut CommandBlock, index: u32, entries: &[(String, String)], windows: bool)
    ensures
        final(b).output() == old(b).output() + special_path_response(index, pairs_view(entries@), windows),
        final(b).input() == old(b).input(),
        final(b).cursor() == old(b).cursor(),
{
    if (index as usize) < entries.len() {
        let (name, path) = &entries[index as usize];
        let normalized = normalize_path_for(path.as_str(), windows);
        b.response_start();
        b.write_string(name.as_str());
        b.write_string(normalized.as_str());
        assert(b.output() =~= old(b).output() + special_path_response(index, pairs_view(entries@), windows));
    } else {
        b.respond_failure(RESULT_INVALID_INDEX);
    }
}

/// The answer to `SelectFile`: the chosen path (in the form the Switch is
/// shown), or a cancelled-selection failure.
pub open spec fn selection_response(chosen: Option<Seq<char>>, windows: bool) -> Seq<u8> {
    match chosen {
        Some(p) => response_header(RESULT_SUCCESS) + string_frame(normalized(p, windows)),
        None => response_header(RESULT_SELECTION_CANCELLED),
    }
}

/// Answers `SelectFile` with the file the user chose, if any.
pub fn respond_selection(b: &mut CommandBlock, chosen: Option<String>, windows: bool)
    ensures
        final(b).output() == old(b).output() + selection_response(
            match chosen {
                Some(p) => Some(p@),
                None => None,
            },
            windows,
        ),
        final(b).input() == old(b).input(),
        final(b).cursor() == old(b).cursor(),
{
    match chosen {
        Some(p) => {
            let normalized = normalize_path_for(p.as_str(), windows);
            b.response_start();
            b.write_string(normalized.as_str());
        },
        None => {
            b.respond_failure(RESULT_SELECTION_CANCELLED);
        },
    }
}

/// Answers a command whose work either succeeded (an empty success) or
/// failed (an exception).
pub fn respond_done(b: &mut CommandBlock, ok: bool)
    ensures
        final(b).output() == old(b).output() + response_header(
            if ok {
                RESULT_SUCCESS
            } else {
                RESULT_EXCEPTION
            },
        ),
        final(b).input() == old(b).input(),
        final(b).cursor() == old(b).cursor(),
{
    if ok {
        b.respond_empty();
    } else {
        b.respond_failure(RESULT_EXCEPTION);
    }
}

/// Answers `ReadFile` with the number of bytes read (the bytes follow
/// outside the block).
pub fn respond_read(b: &mut CommandBlock, read_size: u64)
    ensures
        final(b).output() == old(b).output() + response_header(RESULT_SUCCESS) + u64_le(read_size),
        final(b).input() == old(b).input(),
        final(b).cursor() == old(b).cursor(),
{
    b.response_start();
    b.write_u64(read_size);
}

/// Answers `WriteFile` with the number of bytes written.
pub fn respond_written(b: &mut CommandBlock, size: u64)
    ensures
        final(b).output() == old(b).output() + response_header(RESULT_SUCCESS) + u64_le(size),
        final(b).input() == old(b).input(),
        final(b).cursor() == old(b).cursor(),
{
    b.response_start();
    b.write_u64(size);
}

/// Lets a file command go on when its mode is valid; otherwise answers it
/// with an invalid-file-mode failure.
pub fn check_file_mode(b: &mut CommandBlock, mode: u32) -> (ok: bool)
    ensures
        ok == (mode == FILE_MODE_READ || mode == FILE_MODE_WRITE || mode == FILE_MODE_APPEND),
        ok ==> final(b).output() == old(b).output(),
        !ok ==> final(b).output() == old(b).output() + response_header(RESULT_INVALID_FILE_MODE),
        final(b).input() == old(b).input(),
        final(b).cursor() == old(b).cursor(),
{
    if !is_valid_file_mode(mode) {
        b.respond_failure(RESULT_INVALID_FILE_MODE);
        false
    } else {
        true
    }
}

/// Lets a read or a write go on when it asks for at most 1 GiB; otherwise
/// answers it with an exception.
pub fn check_buffer_size(b: &mut CommandBlock, size: u64) -> (ok: bool)
    ensures
        ok == (size <= MAX_BUFFER_SIZE),
        ok ==> final(b).output() == old(b).output(),
        !ok ==> final(b).output() == old(b).output() + response_header(RESULT_EXCEPTION),
        final(b).input() == old(b).input(),
        final(b).cursor() == old(b).cursor(),
{
    if size > MAX_BUFFER_SIZE {
        b.respond_failure(RESULT_EXCEPTION);
        false
    } else {
        true
    }
}


/// What the Switch writes as a command with a path and an index (`GetFile`,
/// `GetDirectory`), the client opens and decodes as that path, in the
/// host's form, and that index.
pub proof fn lemma_decode_path_index(
    id: u32,
    path: Seq<char>,
    index: u32,
    rest: Seq<u8>,
    windows: bool,
)
    requires
        id == 5 || id == 7,
        vstd::utf8::encode_utf8(path).len() <= u32::MAX,
    ensures
        ({
            let d = u32_le(crate::command_block::INPUT_MAGIC) + u32_le(id) + frame(path) + u32_le(
                index,
            ) + rest;
            &&& u32_at(d, 0) == crate::command_block::INPUT_MAGIC
            &&& u32_at(d, 4) == id
            &&& request_of(id, d, 8, windows) == Some(
                if id == 5 {
                    RequestView::GetFile { path: denormalized(path, windows), index }
                } else {
                    RequestView::GetDirectory { path: denormalized(path, windows), index }
                },
            )
        }),
{
    broadcast use vstd::utf8::encode_utf8_valid_utf8, vstd::utf8::encode_utf8_decode_utf8;

    let m = u32_le(crate::command_block::INPUT_MAGIC);
    let tail = u32_le(index) + rest;
    let d = m + u32_le(id) + frame(path) + tail;
    assert(d =~= Seq::<u8>::empty() + m + (u32_le(id) + frame(path) + tail));
    lemma_read_back_u32(Seq::<u8>::empty(), crate::command_block::INPUT_MAGIC, u32_le(id) + frame(path) + tail);
    assert(d =~= m + u32_le(id) + (frame(path) + tail));
    lemma_read_back_u32(m, id, frame(path) + tail);
    let head = m + u32_le(id);
    assert(head.len() == 8);
    assert(d =~= head + frame(path) + tail);
    lemma_read_back_string(head, path, tail);
    assert(d =~= (head + frame(path)) + u32_le(index) + rest);
    lemma_read_back_u32(head + frame(path), index, rest);
}

/// What the Switch writes as a `ReadFile` command (path, 64-bit offset,
/// 64-bit size) the client decodes as that path, in the host's form, and
/// exactly that offset and size, however large; the read position ends
/// after the size.
#[verifier::rlimit(50)]
pub proof fn lemma_decode_read_file(
    path: Seq<char>,
    offset: u64,
    size: u64,
    rest: Seq<u8>,
    windows: bool,
)
    requires
        vstd::utf8::encode_utf8(path).len() <= u32::MAX,
    ensures
        ({
            let d = u32_le(crate::command_block::INPUT_MAGIC) + u32_le(9) + frame(path) + u64_le(offset)
                + u64_le(size) + rest;
            &&& u32_at(d, 0) == crate::command_block::INPUT_MAGIC
            &&& u32_at(d, 4) == 9
            &&& request_of(9, d, 8, windows) == Some(
                RequestView::ReadFile { path: denormalized(path, windows), offset, size },
            )
            &&& request_end(9, d, 8) == 8 + frame(path).len() + 16
        }),
{
    broadcast use vstd::utf8::encode_utf8_valid_utf8, vstd::utf8::encode_utf8_decode_utf8;

    let m = u32_le(crate::command_block::INPUT_MAGIC);
    let tail = u64_le(offset) + u64_le(size) + rest;
    let d = m + u32_le(9) + frame(path) + tail;
    assert(d =~= Seq::<u8>::empty() + m + (u32_le(9) + frame(path) + tail));
    lemma_read_back_u32(Seq::<u8>::empty(), crate::command_block::INPUT_MAGIC, u32_le(9) + frame(path) + tail);
    assert(d =~= m + u32_le(9) + (frame(path) + tail));
    lemma_read_back_u32(m, 9, frame(path) + tail);
    let head = m + u32_le(9);
    assert(head.len() == 8);
    assert(d =~= head + frame(path) + tail);
    lemma_read_back_string(head, path, tail);
    let p1 = head + frame(path);
    assert(d =~= p1 + u64_le(offset) + (u64_le(size) + rest));
    lemma_read_back_u64(p1, offset, u64_le(size) + rest);
    let p2 = p1 + u64_le(offset);
    assert(d =~= p2 + u64_le(size) + rest);
    lemma_read_back_u64(p2, size, rest);
    assert(p2.len() == p1.len() + 8);
    let e = string_end_at(d, 8);
    assert(e == p1.len());
    assert(u64_at(d, e) == offset);
    assert(read_end(d, e, 8) == p2.len());
    assert(u64_at(d, read_end(d, e, 8)) == size);
    assert(path_at(d, 8, windows) == denormalized(path, windows));
}

/// What the Switch writes as a `WriteFile` command (path, 64-bit size) the
/// client decodes as that path, in the host's form, and exactly that size.
pub proof fn lemma_decode_write_file(path: Seq<char>, size: u64, rest: Seq<u8>, windows: bool)
    requires
        vstd::utf8::encode_utf8(path).len() <= u32::MAX,
    ensures
        ({
            let d = u32_le(crate::command_block::INPUT_MAGIC) + u32_le(10) + frame(path) + u64_le(size)
                + rest;
            &&& request_of(10, d, 8, windows) == Some(
                RequestView::WriteFile { path: denormalized(path, windows), size },
            )
            &&& request_end(10, d, 8) == 8 + frame(path).len() + 8
        }),
{
    broadcast use vstd::utf8::encode_utf8_valid_utf8, vstd::utf8::encode_utf8_decode_utf8;

    let m = u32_le(crate::command_block::INPUT_MAGIC);
    let tail = u64_le(size) + rest;
    let head = m + u32_le(10);
    assert(head.len() == 8);
    let d = head + frame(path) + tail;
    lemma_read_back_string(head, path, tail);
    let p1 = head + frame(path);
    assert(d =~= p1 + u64_le(size) + rest);
    lemma_read_back_u64(p1, size, rest);
}

/// What the Switch writes as a command whose one argument is a `u32`
/// (`GetDriveInfo` index, `EndFile` mode, `GetSpecialPath` index) the
/// client decodes as exactly that value, reading just those four bytes.
#[verifier::rlimit(30)]
pub proof fn lemma_decode_u32_argument(id: u32, value: u32, rest: Seq<u8>, windows: bool)
    requires
        id == 2 || id == 11 || id == 16,
    ensures
        ({
            let d = u32_le(crate::command_block::INPUT_MAGIC) + u32_le(id) + u32_le(value) + rest;
            &&& request_of(id, d, 8, windows) == Some(
                if id == 2 {
                    RequestView::GetDriveInfo { index: value }
                } else if id == 11 {
                    RequestView::EndFile { mode: value }
                } else {
                    RequestView::GetSpecialPath { index: value }
                },
            )
            &&& request_end(id, d, 8) == 12
        }),
{
    let head = u32_le(crate::command_block::INPUT_MAGIC) + u32_le(id);
    assert(head.len() == 8);
    lemma_read_back_u32(head, value, rest);
}

/// What the Switch writes as a command whose one argument is a path
/// (`StatPath`, `GetFileCount`, `GetDirectoryCount`, `Delete`) the client
/// decodes as that path in the host's form, reading just its frame.
#[verifier::rlimit(30)]
pub proof fn lemma_decode_path_argument(id: u32, path: Seq<char>, rest: Seq<u8>, windows: bool)
    requires
        id == 3 || id == 4 || id == 6 || id == 13,
        vstd::utf8::encode_utf8(path).len() <= u32::MAX,
    ensures
        ({
            let d = u32_le(crate::command_block::INPUT_MAGIC) + u32_le(id) + frame(path) + rest;
            let p = denormalized(path, windows);
            &&& request_of(id, d, 8, windows) == Some(
                if id == 3 {
                    RequestView::StatPath { path: p }
                } else if id == 4 {
                    RequestView::GetFileCount { path: p }
                } else if id == 6 {
                    RequestView::GetDirectoryCount { path: p }
                } else {
                    RequestView::Delete { path: p }
                },
            )
            &&& request_end(id, d, 8) == 8 + frame(path).len()
        }),
{
    broadcast use vstd::utf8::encode_utf8_valid_utf8, vstd::utf8::encode_utf8_decode_utf8;

    let head = u32_le(crate::command_block::INPUT_MAGIC) + u32_le(id);
    assert(head.len() == 8);
    lemma_read_back_string(head, path, rest);
}

/// What the Switch writes as a command with a path and a `u32` (`StartFile`
/// mode, `Create` path type) the client decodes as that path in the host's
/// form and exactly that value.
#[verifier::rlimit(30)]
pub proof fn lemma_decode_path_u32(id: u32, path: Seq<char>, value: u32, rest: Seq<u8>, windows: bool)
    requires
        id == 8 || id == 12,
        vstd::utf8::encode_utf8(path).len() <= u32::MAX,
    ensures
        ({
            let d = u32_le(crate::command_block::INPUT_MAGIC) + u32_le(id) + frame(path) + u32_le(value)
                + rest;
            let p = denormalized(path, windows);
            &&& request_of(id, d, 8, windows) == Some(
                if id == 8 {
                    RequestView::StartFile { path: p, mode: value }
                } else {
                    RequestView::Create { path: p, path_type: value }
                },
            )
            &&& request_end(id, d, 8) == 8 + frame(path).len() + 4
        }),
{
    broadcast use vstd::utf8::encode_utf8_valid_utf8, vstd::utf8::encode_utf8_decode_utf8;

    let head = u32_le(crate::command_block::INPUT_MAGIC) + u32_le(id);
    assert(head.len() == 8);
    let tail = u32_le(value) + rest;
    let d = head + frame(path) + tail;
    lemma_read_back_string(head, path, tail);
    let p1 = head + frame(path);
    assert(d =~= p1 + u32_le(value) + rest);
    lemma_read_back_u32(p1, value, rest);
}

/// What the Switch writes as a `Rename` command (path, new name) the
/// client decodes as both, in the host's form, in that order.
#[verifier::rlimit(30)]
pub proof fn lemma_decode_rename(path: Seq<char>, new_name: Seq<char>, rest: Seq<u8>, windows: bool)
    requires
        vstd::utf8::encode_utf8(path).len() <= u32::MAX,
        vstd::utf8::encode_utf8(new_name).len() <= u32::MAX,
    ensures
        ({
            let d = u32_le(crate::command_block::INPUT_MAGIC) + u32_le(14) + frame(path) + frame(new_name)
                + rest;
            &&& request_of(14, d, 8, windows) == Some(
                RequestView::Rename {
                    path: denormalized(path, windows),
                    new_name: denormalized(new_name, windows),
                },
            )
            &&& request_end(14, d, 8) == 8 + frame(path).len() + frame(new_name).len()
        }),
{
    broadcast use vstd::utf8::encode_utf8_valid_utf8, vstd::utf8::encode_utf8_decode_utf8;

    let head = u32_le(crate::command_block::INPUT_MAGIC) + u32_le(14);
    assert(head.len() == 8);
    let tail = frame(new_name) + rest;
    let d = head + frame(path) + tail;
    lemma_read_back_string(head, path, tail);
    let p1 = head + frame(path);
    assert(d =~= p1 + frame(new_name) + rest);
    lemma_read_back_string(p1, new_name, rest);
}

/// Commands without arguments decode from any block without reading it,
/// and every id outside 1 to 17 is unknown and reads nothing.
pub proof fn lemma_decode_no_argument(id: u32, d: Seq<u8>, p: nat, windows: bool)
    ensures
        id == 1 ==> request_of(id, d, p, windows) == Some(RequestView::GetDriveCount),
        id == 15 ==> request_of(id, d, p, windows) == Some(RequestView::GetSpecialPathCount),
        id == 17 ==> request_of(id, d, p, windows) == Some(RequestView::SelectFile),
        !(1 <= id <= 17) ==> request_of(id, d, p, windows).is_none(),
        (id == 1 || id == 15 || id == 17 || !(1 <= id <= 17)) ==> request_end(id, d, p) == p,
{
}

/// A response read back: its header gives the output magic and `rc`.
proof fn lemma_header_read_back(rc: u32, rest: Seq<u8>)
    ensures
        u32_at(response_header(rc) + rest, 0) == crate::command_block::OUTPUT_MAGIC,
        u32_at(response_header(rc) + rest, 4) == rc,
        response_header(rc).len() == 8,
{
    let m = u32_le(crate::command_block::OUTPUT_MAGIC);
    let r = response_header(rc) + rest;
    assert(r =~= Seq::<u8>::empty() + m + (u32_le(rc) + rest));
    lemma_read_back_u32(Seq::<u8>::empty(), crate::command_block::OUTPUT_MAGIC, u32_le(rc) + rest);
    assert(r =~= m + u32_le(rc) + rest);
    lemma_read_back_u32(m, rc, rest);
}

/// The answer to `GetFile` or `GetDirectory`, read back: success and the
/// name at `index`, or an invalid index with nothing after it.
pub proof fn lemma_entry_answer(index: u32, entries: Seq<Seq<char>>)
    requires
        index < entries.len() ==> vstd::utf8::encode_utf8(entries[index as int]).len() <= u32::MAX,
    ensures
        ({
            let r = entry_response(index, entries);
            &&& u32_at(r, 0) == crate::command_block::OUTPUT_MAGIC
            &&& index < entries.len() ==> u32_at(r, 4) == RESULT_SUCCESS && utf8_text(
                string_bytes_at(r, 8),
            ) == entries[index as int]
            &&& index >= entries.len() ==> u32_at(r, 4) == RESULT_INVALID_INDEX && r.len() == 8
        }),
{
    broadcast use vstd::utf8::encode_utf8_valid_utf8, vstd::utf8::encode_utf8_decode_utf8;

    if index < entries.len() {
        let e = entries[index as int];
        lemma_header_read_back(RESULT_SUCCESS, frame(e));
        lemma_read_back_string(response_header(RESULT_SUCCESS), e, Seq::<u8>::empty());
        assert(response_header(RESULT_SUCCESS) + frame(e) + Seq::<u8>::empty() =~= response_header(
            RESULT_SUCCESS,
        ) + frame(e));
    } else {
        lemma_header_read_back(RESULT_INVALID_INDEX, Seq::<u8>::empty());
        assert(response_header(RESULT_INVALID_INDEX) + Seq::<u8>::empty() =~= response_header(
            RESULT_INVALID_INDEX,
        ));
    }
}

/// The answer to `GetSpecialPath`, read back: success, the name at
/// `index`, then its path in the form the Switch is shown; or an invalid
/// index.
pub proof fn lemma_special_path_answer(index: u32, entries: Seq<(Seq<char>, Seq<char>)>, windows: bool)
    requires
        index < entries.len() ==> vstd::utf8::encode_utf8(entries[index as int].0).len() <= u32::MAX
            && vstd::utf8::encode_utf8(normalized(entries[index as int].1, windows)).len() <= u32::MAX,
    ensures
        ({
            let r = special_path_response(index, entries, windows);
            &&& u32_at(r, 0) == crate::command_block::OUTPUT_MAGIC
            &&& index < entries.len() ==> {
                &&& u32_at(r, 4) == RESULT_SUCCESS
                &&& utf8_text(string_bytes_at(r, 8)) == entries[index as int].0
                &&& utf8_text(string_bytes_at(r, string_end_at(r, 8))) == normalized(
                    entries[index as int].1,
                    windows,
                )
            }
            &&& index >= entries.len() ==> u32_at(r, 4) == RESULT_INVALID_INDEX && r.len() == 8
        }),
{
    broadcast use vstd::utf8::encode_utf8_valid_utf8, vstd::utf8::encode_utf8_decode_utf8;

    if index < entries.len() {
        let (n, p) = entries[index as int];
        let np = normalized(p, windows);
        let h = response_header(RESULT_SUCCESS);
        lemma_header_read_back(RESULT_SUCCESS, frame(n) + frame(np));
        let r = h + frame(n) + frame(np);
        assert(r =~= h + (frame(n) + frame(np)));
        lemma_read_back_string(h, n, frame(np));
        assert(r =~= (h + frame(n)) + frame(np) + Seq::<u8>::empty());
        lemma_read_back_string(h + frame(n), np, Seq::<u8>::empty());
    } else {
        lemma_header_read_back(RESULT_INVALID_INDEX, Seq::<u8>::empty());
        assert(response_header(RESULT_INVALID_INDEX) + Seq::<u8>::empty() =~= response_header(
            RESULT_INVALID_INDEX,
        ));
    }
}

/// The answer to `SelectFile`, read back: success and the chosen path in
/// the form the Switch is shown, or a cancelled selection.
pub proof fn lemma_selection_answer(chosen: Option<Seq<char>>, windows: bool)
    requires
        chosen matches Some(p) ==> vstd::utf8::encode_utf8(normalized(p, windows)).len() <= u32::MAX,
    ensures
        ({
            let r = selection_response(chosen, windows);
            &&& u32_at(r, 0) == crate::command_block::OUTPUT_MAGIC
            &&& chosen matches Some(p) ==> u32_at(r, 4) == RESULT_SUCCESS && utf8_text(
                string_bytes_at(r, 8),
            ) == normalized(p, windows)
            &&& chosen is None ==> u32_at(r, 4) == RESULT_SELECTION_CANCELLED
        }),
{
    broadcast use vstd::utf8::encode_utf8_valid_utf8, vstd::utf8::encode_utf8_decode_utf8;

    match chosen {
        Some(p) => {
            let np = normalized(p, windows);
            lemma_header_read_back(RESULT_SUCCESS, frame(np));
            lemma_read_back_string(response_header(RESULT_SUCCESS), np, Seq::<u8>::empty());
            assert(response_header(RESULT_SUCCESS) + frame(np) + Seq::<u8>::empty() =~= response_header(
                RESULT_SUCCESS,
            ) + frame(np));
        },
        None => {
            lemma_header_read_back(RESULT_SELECTION_CANCELLED, Seq::<u8>::empty());
            assert(response_header(RESULT_SELECTION_CANCELLED) + Seq::<u8>::empty() =~= response_header(
                RESULT_SELECTION_CANCELLED,
            ));
        },
    }
}

/// The answer to `StatPath`, read back: a file as type 1 with its size, a
/// directory as type 2 with size 0, anything else as type 0 with size 0.
pub proof fn lemma_stat_answer(stat: PathStat)
    ensures
        ({
            let r = response_header(RESULT_SUCCESS) + u32_le(stat_fields(stat).0) + u64_le(
                stat_fields(stat).1,
            );
            &&& u32_at(r, 4) == RESULT_SUCCESS
            &&& stat matches PathStat::File(n) ==> u32_at(r, 8) == 1 && u64_at(r, 12) == n
            &&& stat is Directory ==> u32_at(r, 8) == 2 && u64_at(r, 12) == 0
            &&& stat is Missing ==> u32_at(r, 8) == 0 && u64_at(r, 12) == 0
        }),
{
    let (t, n) = stat_fields(stat);
    let h = response_header(RESULT_SUCCESS);
    lemma_header_read_back(RESULT_SUCCESS, u32_le(t) + u64_le(n));
    let r = h + u32_le(t) + u64_le(n);
    assert(r =~= h + (u32_le(t) + u64_le(n)));
    lemma_read_back_u32(h, t, u64_le(n));
    assert(r =~= (h + u32_le(t)) + u64_le(n) + Seq::<u8>::empty());
    lemma_read_back_u64(h + u32_le(t), n, Seq::<u8>::empty());
}

/// The answer to `GetDriveInfo`, read back: success, the drive's label,
/// the drive itself, then two zero sizes; or an invalid index.
pub proof fn lemma_drive_info_answer(index: u32, drives: Seq<Seq<char>>, home: Seq<char>, windows: bool)
    requires
        index < drives.len() ==> vstd::utf8::encode_utf8(drives[index as int]).len() <= u32::MAX
            && vstd::utf8::encode_utf8(drive_label_of(drives[index as int], home, windows)).len()
            <= u32::MAX,
    ensures
        ({
            let r = drive_info_response(index, drives, home, windows);
            &&& u32_at(r, 0) == crate::command_block::OUTPUT_MAGIC
            &&& index < drives.len() ==> {
                let e1 = string_end_at(r, 8);
                let e2 = string_end_at(r, e1);
                &&& u32_at(r, 4) == RESULT_SUCCESS
                &&& utf8_text(string_bytes_at(r, 8)) == drive_label_of(drives[index as int], home, windows)
                &&& utf8_text(string_bytes_at(r, e1)) == drives[index as int]
                &&& u64_at(r, e2) == 0
                &&& u64_at(r, e2 + 8) == 0
            }
            &&& index >= drives.len() ==> u32_at(r, 4) == RESULT_INVALID_INDEX && r.len() == 8
        }),
{
    broadcast use vstd::utf8::encode_utf8_valid_utf8, vstd::utf8::encode_utf8_decode_utf8;

    if index < drives.len() {
        let d = drives[index as int];
        let l = drive_label_of(d, home, windows);
        let h = response_header(RESULT_SUCCESS);
        let z = u64_le(0) + u64_le(0);
        let r = h + frame(l) + frame(d) + u64_le(0) + u64_le(0);
        lemma_header_read_back(RESULT_SUCCESS, frame(l) + frame(d) + z);
        assert(r =~= h + (frame(l) + frame(d) + z));
        assert(r =~= h + frame(l) + (frame(d) + z));
        lemma_read_back_string(h, l, frame(d) + z);
        let p1 = h + frame(l);
        assert(r =~= p1 + frame(d) + z);
        lemma_read_back_string(p1, d, z);
        let p2 = p1 + frame(d);
        assert(r =~= p2 + u64_le(0) + u64_le(0));
        lemma_read_back_u64(p2, 0, u64_le(0));
        assert(r =~= (p2 + u64_le(0)) + u64_le(0) + Seq::<u8>::empty());
        lemma_read_back_u64(p2 + u64_le(0), 0, Seq::<u8>::empty());
    } else {
        lemma_header_read_back(RESULT_INVALID_INDEX, Seq::<u8>::empty());
        assert(response_header(RESULT_INVALID_INDEX) + Seq::<u8>::empty() =~= response_header(
            RESULT_INVALID_INDEX,
        ));
    }
}

} // verus!

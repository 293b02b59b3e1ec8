use hadron::command_block::{FILE_MODE_APPEND, FILE_MODE_READ, FILE_MODE_WRITE};
use hadron::session::{FileOpen, FileSession, FileUse};

fn st(reading: bool, writing: bool) -> FileSession {
    FileSession { reading, writing }
}

#[test]
fn start_file_closes_the_file_it_replaces() {
    let open = st(true, true);
    assert_eq!(open.start_file(FILE_MODE_READ), (st(false, true), FileOpen::Read));
    assert_eq!(open.start_file(FILE_MODE_WRITE), (st(true, false), FileOpen::Truncate));
    assert_eq!(open.start_file(FILE_MODE_APPEND), (open, FileOpen::Append));
}

#[test]
fn opened_files_join_the_session() {
    assert_eq!(st(false, false).opened(FILE_MODE_READ, true), st(true, false));
    assert_eq!(st(false, false).opened(FILE_MODE_READ, false), st(false, false));
    assert_eq!(st(false, false).opened(FILE_MODE_APPEND, true), st(false, true));
    assert_eq!(st(false, true).opened(FILE_MODE_APPEND, false), st(false, true));
}

#[test]
fn transfers_use_the_session_file_when_open() {
    assert_eq!(st(true, false).read_file(), (st(false, false), FileUse::Session));
    assert_eq!(st(false, true).read_file(), (st(false, true), FileUse::Own(FileOpen::Read)));
    assert_eq!(st(false, true).write_file(), (st(false, false), FileUse::Session));
    assert_eq!(st(true, false).write_file(), (st(true, false), FileUse::Own(FileOpen::Overwrite)));
}

#[test]
fn failed_transfers_drop_the_session_file() {
    let (taken, used) = st(true, true).read_file();
    assert_eq!(taken.read_done(used, true), st(true, true));
    assert_eq!(taken.read_done(used, false), st(false, true));
    let (taken, used) = st(true, true).write_file();
    assert_eq!(taken.write_done(used, false), st(true, false));
    let (taken, used) = st(false, false).write_file();
    assert_eq!(taken.write_done(used, false), st(false, false));
}

#[test]
fn end_file_closes_by_mode() {
    assert_eq!(st(true, true).end_file(FILE_MODE_READ), st(false, true));
    assert_eq!(st(true, true).end_file(FILE_MODE_WRITE), st(true, false));
    assert_eq!(st(true, true).end_file(FILE_MODE_APPEND), st(true, false));
    assert_eq!(FileSession::new(), st(false, false));
}

use hadron::buffer::{LeReader, LeWriter};
use hadron::command_block::{
    pad_to, CommandBlock, BLOCK_SIZE, INPUT_MAGIC, OUTPUT_MAGIC, RESULT_EXCEPTION,
    RESULT_INVALID_FILE_MODE, RESULT_INVALID_INDEX, RESULT_SELECTION_CANCELLED, RESULT_SUCCESS,
};
use hadron::command_framework::{
    check_buffer_size, check_file_mode, create_kind, decode_request, handle, is_valid_file_mode,
    respond_count, respond_done, respond_drive_info, respond_entry, respond_read,
    respond_selection, respond_special_path, respond_stat, respond_written, CreateKind, PathStat, Request,
    MAX_BUFFER_SIZE,
};
use hadron::usb::{open_block, BlockError};

fn request(id: u32, fill: impl FnOnce(&mut LeWriter)) -> Vec<u8> {
    let mut w = LeWriter::new(BLOCK_SIZE);
    w.push_u32(INPUT_MAGIC);
    w.push_u32(id);
    fill(&mut w);
    pad_to(w.buf, BLOCK_SIZE)
}

fn opened(data: Vec<u8>) -> (CommandBlock, u32) {
    match open_block(data) {
        Ok(x) => x,
        Err(e) => panic!("block refused: {:?}", e),
    }
}

fn response(b: &CommandBlock) -> LeReader {
    let sent = b.response_end();
    assert_eq!(sent.len(), BLOCK_SIZE);
    LeReader::new(sent)
}

#[test]
fn magic_values_spell_glci_and_glco() {
    assert_eq!(&INPUT_MAGIC.to_le_bytes(), b"GLCI");
    assert_eq!(&OUTPUT_MAGIC.to_le_bytes(), b"GLCO");
}

#[test]
fn validate_reads_command_id() {
    let mut b = CommandBlock::from(request(9, |_| {}));
    assert_eq!(b.validate(), Some(9));
}

#[test]
fn validate_refuses_wrong_magic() {
    let mut data = request(9, |_| {});
    data[0] = b'X';
    let mut b = CommandBlock::from(data);
    assert_eq!(b.validate(), None);
}

#[test]
fn open_block_needs_whole_block() {
    let data = request(1, |_| {});
    assert_eq!(open_block(data[..100].to_vec()).err(), Some(BlockError::WrongSize));
    let mut bad = data.clone();
    bad[3] = 0;
    assert_eq!(open_block(bad).err(), Some(BlockError::BadMagic));
    let (_, id) = opened(data);
    assert_eq!(id, 1);
}

#[test]
fn empty_response_is_a_padded_block() {
    let mut b = CommandBlock::from(request(11, |_| {}));
    b.respond_empty();
    let sent = b.response_end();
    assert_eq!(sent.len(), BLOCK_SIZE);
    assert_eq!(&sent[..8], &[b'G', b'L', b'C', b'O', 0, 0, 0, 0]);
    assert!(sent[8..].iter().all(|&x| x == 0));
}

#[test]
fn failure_response_carries_result_code() {
    let mut b = CommandBlock::from(Vec::new());
    b.respond_failure(0xBAF5);
    let mut r = response(&b);
    assert_eq!(r.read_u32(), OUTPUT_MAGIC);
    assert_eq!(r.read_u32(), 0xBAF5);
}

#[test]
fn pad_to_keeps_long_data() {
    assert_eq!(pad_to(vec![1, 2, 3], 2), vec![1, 2, 3]);
    assert_eq!(pad_to(vec![1], 3), vec![1, 0, 0]);
}

#[test]
fn file_modes() {
    assert!(!is_valid_file_mode(0));
    assert!(is_valid_file_mode(1));
    assert!(is_valid_file_mode(2));
    assert!(is_valid_file_mode(3));
    assert!(!is_valid_file_mode(4));
}

#[test]
fn unknown_commands_are_not_handled() {
    for id in [0u32, 18, 0xBAF5] {
        let (mut b, _) = opened(request(id, |_| {}));
        assert_eq!(handle(id, &mut b), None);
    }
}

#[test]
fn decodes_every_command_on_unix() {
    let (mut b, id) = opened(request(1, |_| {}));
    assert_eq!(decode_request(id, &mut b, false), Some(Request::GetDriveCount));

    let (mut b, id) = opened(request(2, |w| w.push_u32(3)));
    assert_eq!(decode_request(id, &mut b, false), Some(Request::GetDriveInfo { index: 3 }));

    let (mut b, id) = opened(request(3, |w| w.push_string("home:docs")));
    assert_eq!(
        decode_request(id, &mut b, false),
        Some(Request::StatPath { path: "home/docs".to_string() })
    );

    let (mut b, id) = opened(request(4, |w| w.push_string("a:")));
    assert_eq!(
        decode_request(id, &mut b, false),
        Some(Request::GetFileCount { path: "a/".to_string() })
    );

    let (mut b, id) = opened(request(5, |w| {
        w.push_string("x:y");
        w.push_u32(7);
    }));
    assert_eq!(
        decode_request(id, &mut b, false),
        Some(Request::GetFile { path: "x/y".to_string(), index: 7 })
    );

    let (mut b, id) = opened(request(6, |w| w.push_string("d")));
    assert_eq!(
        decode_request(id, &mut b, false),
        Some(Request::GetDirectoryCount { path: "d".to_string() })
    );

    let (mut b, id) = opened(request(7, |w| {
        w.push_string("d");
        w.push_u32(0);
    }));
    assert_eq!(
        decode_request(id, &mut b, false),
        Some(Request::GetDirectory { path: "d".to_string(), index: 0 })
    );

    let (mut b, id) = opened(request(8, |w| {
        w.push_string("f");
        w.push_u32(2);
    }));
    assert_eq!(
        decode_request(id, &mut b, false),
        Some(Request::StartFile { path: "f".to_string(), mode: 2 })
    );

    let (mut b, id) = opened(request(9, |w| {
        w.push_string("f");
        w.push_u64(10);
        w.push_u64(20);
    }));
    assert_eq!(
        decode_request(id, &mut b, false),
        Some(Request::ReadFile { path: "f".to_string(), offset: 10, size: 20 })
    );

    let (mut b, id) = opened(request(10, |w| {
        w.push_string("f");
        w.push_u64(5);
    }));
    assert_eq!(
        decode_request(id, &mut b, false),
        Some(Request::WriteFile { path: "f".to_string(), size: 5 })
    );

    let (mut b, id) = opened(request(11, |w| w.push_u32(1)));
    assert_eq!(decode_request(id, &mut b, false), Some(Request::EndFile { mode: 1 }));

    let (mut b, id) = opened(request(12, |w| {
        w.push_string("n");
        w.push_u32(2);
    }));
    assert_eq!(
        decode_request(id, &mut b, false),
        Some(Request::Create { path: "n".to_string(), path_type: 2 })
    );

    let (mut b, id) = opened(request(13, |w| w.push_string("gone")));
    assert_eq!(
        decode_request(id, &mut b, false),
        Some(Request::Delete { path: "gone".to_string() })
    );

    let (mut b, id) = opened(request(14, |w| {
        w.push_string("a:b");
        w.push_string("c:d");
    }));
    assert_eq!(
        decode_request(id, &mut b, false),
        Some(Request::Rename { path: "a/b".to_string(), new_name: "c/d".to_string() })
    );

    let (mut b, id) = opened(request(15, |_| {}));
    assert_eq!(decode_request(id, &mut b, false), Some(Request::GetSpecialPathCount));

    let (mut b, id) = opened(request(16, |w| w.push_u32(4)));
    assert_eq!(decode_request(id, &mut b, false), Some(Request::GetSpecialPath { index: 4 }));

    let (mut b, id) = opened(request(17, |_| {}));
    assert_eq!(decode_request(id, &mut b, false), Some(Request::SelectFile));
}

#[test]
fn decodes_paths_on_windows() {
    let (mut b, id) = opened(request(3, |w| w.push_string("C:/Users/me")));
    assert_eq!(
        decode_request(id, &mut b, true),
        Some(Request::StatPath { path: "C:\\Users\\me".to_string() })
    );
}

#[test]
fn count_response() {
    let mut b = CommandBlock::from(Vec::new());
    respond_count(&mut b, 3);
    let mut r = response(&b);
    assert_eq!(r.read_u32(), OUTPUT_MAGIC);
    assert_eq!(r.read_u32(), RESULT_SUCCESS);
    assert_eq!(r.read_u32(), 3);
}

#[test]
fn drive_info_response() {
    let drives = vec!["/home/me".to_string(), "/".to_string(), "/mnt/usb".to_string()];
    let mut b = CommandBlock::from(Vec::new());
    respond_drive_info(&mut b, 2, &drives, "/home/me", false);
    let mut r = response(&b);
    assert_eq!(r.read_u32(), OUTPUT_MAGIC);
    assert_eq!(r.read_u32(), RESULT_SUCCESS);
    assert_eq!(r.read_string(), "usb");
    assert_eq!(r.read_string(), "/mnt/usb");
    assert_eq!(r.read_u64(), 0);
    assert_eq!(r.read_u64(), 0);

    let mut b = CommandBlock::from(Vec::new());
    respond_drive_info(&mut b, 0, &drives, "/home/me", false);
    let mut r = response(&b);
    r.read_u32();
    r.read_u32();
    assert_eq!(r.read_string(), "Home directory");

    let mut b = CommandBlock::from(Vec::new());
    respond_drive_info(&mut b, 3, &drives, "/home/me", false);
    let mut r = response(&b);
    assert_eq!(r.read_u32(), OUTPUT_MAGIC);
    assert_eq!(r.read_u32(), RESULT_INVALID_INDEX);
}

#[test]
fn stat_responses() {
    let cases = [
        (PathStat::File(1234), 1u32, 1234u64),
        (PathStat::Directory, 2, 0),
        (PathStat::Missing, 0, 0),
    ];
    for (stat, ty, size) in cases {
        let mut b = CommandBlock::from(Vec::new());
        respond_stat(&mut b, stat);
        let mut r = response(&b);
        assert_eq!(r.read_u32(), OUTPUT_MAGIC);
        assert_eq!(r.read_u32(), RESULT_SUCCESS);
        assert_eq!(r.read_u32(), ty);
        assert_eq!(r.read_u64(), size);
    }
}

#[test]
fn entry_responses() {
    let files = vec!["a.nsp".to_string(), "b.nsp".to_string()];
    let mut b = CommandBlock::from(Vec::new());
    respond_entry(&mut b, 1, &files);
    let mut r = response(&b);
    r.read_u32();
    assert_eq!(r.read_u32(), RESULT_SUCCESS);
    assert_eq!(r.read_string(), "b.nsp");

    let mut b = CommandBlock::from(Vec::new());
    respond_entry(&mut b, 2, &files);
    let mut r = response(&b);
    r.read_u32();
    assert_eq!(r.read_u32(), RESULT_INVALID_INDEX);
}

#[test]
fn special_path_responses() {
    let entries = vec![("Games".to_string(), "/data//games".to_string())];
    let mut b = CommandBlock::from(Vec::new());
    respond_special_path(&mut b, 0, &entries, false);
    let mut r = response(&b);
    r.read_u32();
    assert_eq!(r.read_u32(), RESULT_SUCCESS);
    assert_eq!(r.read_string(), "Games");
    assert_eq!(r.read_string(), "/data/games");

    let win = vec![("D".to_string(), "C:\\\\x".to_string())];
    let mut b = CommandBlock::from(Vec::new());
    respond_special_path(&mut b, 0, &win, true);
    let mut r = response(&b);
    r.read_u32();
    r.read_u32();
    assert_eq!(r.read_string(), "D");
    assert_eq!(r.read_string(), "C::x");

    let mut b = CommandBlock::from(Vec::new());
    respond_special_path(&mut b, 1, &entries, false);
    let mut r = response(&b);
    r.read_u32();
    assert_eq!(r.read_u32(), RESULT_INVALID_INDEX);
}

#[test]
fn selection_responses() {
    let mut b = CommandBlock::from(Vec::new());
    respond_selection(&mut b, Some("/tmp/game.nsp".to_string()), false);
    let mut r = response(&b);
    r.read_u32();
    assert_eq!(r.read_u32(), RESULT_SUCCESS);
    assert_eq!(r.read_string(), "/tmp/game.nsp");

    let mut b = CommandBlock::from(Vec::new());
    respond_selection(&mut b, None, false);
    let mut r = response(&b);
    r.read_u32();
    assert_eq!(r.read_u32(), RESULT_SELECTION_CANCELLED);
}

#[test]
fn done_read_and_written_responses() {
    let mut b = CommandBlock::from(Vec::new());
    respond_done(&mut b, false);
    let mut r = response(&b);
    r.read_u32();
    assert_eq!(r.read_u32(), RESULT_EXCEPTION);

    let mut b = CommandBlock::from(Vec::new());
    respond_done(&mut b, true);
    let mut r = response(&b);
    r.read_u32();
    assert_eq!(r.read_u32(), RESULT_SUCCESS);

    let mut b = CommandBlock::from(Vec::new());
    respond_read(&mut b, 77);
    let mut r = response(&b);
    r.read_u32();
    assert_eq!(r.read_u32(), RESULT_SUCCESS);
    assert_eq!(r.read_u64(), 77);

    let mut b = CommandBlock::from(Vec::new());
    respond_written(&mut b, 88);
    let mut r = response(&b);
    r.read_u32();
    r.read_u32();
    assert_eq!(r.read_u64(), 88);
}

#[test]
fn mode_and_size_checks() {
    let mut b = CommandBlock::from(Vec::new());
    assert!(check_file_mode(&mut b, 3));
    assert!(b.response_end().iter().all(|&x| x == 0));
    assert!(!check_file_mode(&mut b, 9));
    let mut r = response(&b);
    r.read_u32();
    assert_eq!(r.read_u32(), RESULT_INVALID_FILE_MODE);

    let mut b = CommandBlock::from(Vec::new());
    assert!(check_buffer_size(&mut b, MAX_BUFFER_SIZE));
    assert!(!check_buffer_size(&mut b, MAX_BUFFER_SIZE + 1));
    let mut r = response(&b);
    r.read_u32();
    assert_eq!(r.read_u32(), RESULT_EXCEPTION);
    assert_eq!(MAX_BUFFER_SIZE, 1 << 30);
}

#[test]
fn unknown_commands_read_nothing() {
    for id in [0u32, 18, 99] {
        let (mut b, got) = opened(request(id, |w| {
            w.push_u32(0xDEAD_BEEF);
        }));
        assert_eq!(got, id);
        assert!(handle(id, &mut b).is_none());
        assert_eq!(b.read_u32(), 0xDEAD_BEEF);
    }
    for id in [1u32, 15, 17] {
        let (mut b, _) = opened(request(id, |w| {
            w.push_u32(7);
        }));
        assert!(handle(id, &mut b).is_some());
        assert_eq!(b.read_u32(), 7);
    }
}

#[test]
fn commands_read_exactly_their_arguments() {
    let (mut b, _) = opened(request(9, |w| {
        w.push_string("a:b");
        w.push_u64(5);
        w.push_u64(6);
        w.push_u32(0x1234);
    }));
    assert!(handle(9, &mut b).is_some());
    assert_eq!(b.read_u32(), 0x1234);
    let (mut b, _) = opened(request(2, |w| {
        w.push_u32(3);
        w.push_u32(0x55);
    }));
    assert_eq!(handle(2, &mut b), Some(Request::GetDriveInfo { index: 3 }));
    assert_eq!(b.read_u32(), 0x55);
}

#[test]
fn create_kinds() {
    assert_eq!(create_kind(1), CreateKind::File);
    assert_eq!(create_kind(2), CreateKind::Directory);
    assert_eq!(create_kind(0), CreateKind::Nothing);
    assert_eq!(create_kind(7), CreateKind::Nothing);
}

use touchhle::posix_io::{
    check_open_flags, close, fd_to_file_idx, file_idx_to_fd, open, open_options, read, read_result, HostFile,
    OpenFlagsError, OpenOptions, State, O_APPEND, O_CREAT, O_EXCL, O_NOFOLLOW, O_NONBLOCK,
    O_RDONLY, O_RDWR, O_TRUNC, O_WRONLY,
};

struct MemFile {
    data: Vec<u8>,
    fail_sync: bool,
}

impl HostFile for MemFile {
    fn read_into(&mut self, buf: &mut Vec<u8>) -> Option<usize> {
        let n = buf.len().min(self.data.len());
        buf[..n].copy_from_slice(&self.data[..n]);
        self.data.drain(..n);
        Some(n)
    }

    fn sync_all(&mut self) -> bool {
        !self.fail_sync
    }
}

fn file(data: &[u8]) -> MemFile {
    MemFile { data: data.to_vec(), fail_sync: false }
}

#[test]
fn descriptor_index_mapping() {
    assert_eq!(file_idx_to_fd(0), 3);
    assert_eq!(file_idx_to_fd(10), 13);
    assert_eq!(file_idx_to_fd(i32::MAX as usize - 3), i32::MAX);
    assert_eq!(fd_to_file_idx(3), Some(0));
    assert_eq!(fd_to_file_idx(2), None);
    assert_eq!(fd_to_file_idx(-1), None);
}

#[test]
fn open_flags_translate() {
    assert_eq!(check_open_flags(O_RDWR | O_APPEND | O_NONBLOCK), Ok(()));
    assert_eq!(
        open_options(O_RDONLY),
        OpenOptions { read: true, write: false, append: false, create: false, truncate: false }
    );
    assert_eq!(
        open_options(O_WRONLY | O_CREAT | O_TRUNC),
        OpenOptions { read: false, write: true, append: false, create: true, truncate: true }
    );
    assert_eq!(
        open_options(O_RDWR | O_APPEND | O_NONBLOCK),
        OpenOptions { read: true, write: true, append: true, create: false, truncate: false }
    );
}

#[test]
fn open_flags_refused() {
    assert_eq!(check_open_flags(O_WRONLY | O_RDWR), Err(OpenFlagsError::BadAccessMode));
    assert_eq!(check_open_flags(0x10), Err(OpenFlagsError::UnknownFlag));
    assert_eq!(check_open_flags(O_NOFOLLOW), Err(OpenFlagsError::NoFollow));
    assert_eq!(check_open_flags(O_CREAT | O_EXCL), Err(OpenFlagsError::Exclusive));
}

#[test]
fn open_read_close_cycle() {
    let mut st: State<MemFile> = State::new();
    let fd = open(&mut st, Some(file(b"hello")));
    assert_eq!(fd, 3);
    assert_eq!(open(&mut st, Some(file(b""))), 4);
    assert!(st.file_for_fd(fd).is_some());
    let mut buf = vec![0u8; 3];
    assert_eq!(read(&mut st, fd, &mut buf), 3);
    assert_eq!(buf, b"hel".to_vec());
    let mut buf = vec![0u8; 8];
    assert_eq!(read(&mut st, fd, &mut buf), 2);
    assert_eq!(close(&mut st, fd), 0);
    assert!(st.file_for_fd(fd).is_none());
    assert_eq!(open(&mut st, Some(file(b"x"))), 3);
}

#[test]
fn failures_return_minus_one() {
    let mut st: State<MemFile> = State::new();
    assert_eq!(open(&mut st, None), -1);
    let mut buf = vec![7u8; 1];
    assert_eq!(read(&mut st, 3, &mut buf), -1);
    assert_eq!(buf, vec![7u8]);
    assert_eq!(read(&mut st, 1, &mut buf), -1);
    assert_eq!(close(&mut st, 5), -1);
    let fd = open(&mut st, Some(MemFile { data: vec![], fail_sync: true }));
    assert_eq!(close(&mut st, fd), -1);
    assert!(st.file_for_fd(fd).is_none());
    assert_eq!(read_result(None), -1);
    assert_eq!(read_result(Some(7)), 7);
    assert_eq!(read_result(Some(i32::MAX as usize + 1)), -1);
}

#[test]
fn full_table_descriptors_are_half_open_range() {
    let mut st: State<MemFile> = State::new();
    for _ in 0..3 {
        open(&mut st, Some(file(b"")));
    }
    assert!(st.file_for_fd(3).is_some());
    assert!(st.file_for_fd(5).is_some());
    assert!(st.file_for_fd(6).is_none());
    assert!(st.file_for_fd(2).is_none());
}

#[test]
fn open_reuses_freed_descriptor_only() {
    let mut st: State<MemFile> = State::new();
    let a = open(&mut st, Some(file(b"a")));
    let b = open(&mut st, Some(file(b"b")));
    assert_eq!(close(&mut st, a), 0);
    let c = open(&mut st, Some(file(b"c")));
    assert_eq!(c, a);
    assert_ne!(c, b);
    let mut buf = vec![0u8; 1];
    assert_eq!(read(&mut st, b, &mut buf), 1);
    assert_eq!(buf, b"b".to_vec());
    assert_eq!(read(&mut st, c, &mut buf), 1);
    assert_eq!(buf, b"c".to_vec());
}

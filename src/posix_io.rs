use vstd::prelude::*;

verus! {

/// First descriptor handed out for opened files; 0, 1 and 2 are the
/// standard streams.
pub const NORMAL_FILENO_BASE: i32 = 3;

pub const O_RDONLY: i32 = 0x0;
pub const O_WRONLY: i32 = 0x1;
pub const O_RDWR: i32 = 0x2;
pub const O_ACCMODE: i32 = 0x3;
pub const O_NONBLOCK: i32 = 0x4;
pub const O_APPEND: i32 = 0x8;
pub const O_NOFOLLOW: i32 = 0x100;
pub const O_CREAT: i32 = 0x200;
pub const O_TRUNC: i32 = 0x400;
pub const O_EXCL: i32 = 0x800;

/// Every flag that `open` knows of.
pub const O_KNOWN: i32 = 0xf0f;

/// A file as the host opened it.
pub trait HostFile {
    /// Reads into `buf`, returning the number of bytes read, or `None` on failure.
    fn read_into(&mut self, buf: &mut Vec<u8>) -> Option<usize>;

    /// Flushes the file to storage; `false` on failure.
    fn sync_all(&mut self) -> bool;
}

/// How the host should open a file.
#[derive(Clone, Copy, Debug, PartialEq, Eq, Structural)]
pub struct OpenOptions {
    pub read: bool,
    pub write: bool,
    pub append: bool,
    pub create: bool,
    pub truncate: bool,
}

/// Why a set of `open` flags was refused.
#[derive(Clone, Copy, Debug, PartialEq, Eq, Structural)]
pub enum OpenFlagsError {
    /// The access mode is neither read-only, write-only nor read-write.
    BadAccessMode,
    /// A flag outside the known set.
    UnknownFlag,
    /// Not following symbolic links is not supported.
    NoFollow,
    /// Exclusive creation is not supported.
    Exclusive,
}

/// Flag `f` is set in `flags`.
pub open spec fn flag_set(flags: i32, f: i32) -> bool {
    flags & f != 0
}

/// What is wrong with a set of `open` flags, the access mode checked first;
/// `None` when `open` supports them.
pub open spec fn open_flags_error(flags: i32) -> Option<OpenFlagsError> {
    if flags & O_ACCMODE == O_ACCMODE {
        Some(OpenFlagsError::BadAccessMode)
    } else if flags & !O_KNOWN != 0 {
        Some(OpenFlagsError::UnknownFlag)
    } else if flag_set(flags, O_NOFOLLOW) {
        Some(OpenFlagsError::NoFollow)
    } else if flag_set(flags, O_EXCL) {
        Some(OpenFlagsError::Exclusive)
    } else {
        None
    }
}

/// The host open options for supported `open` flags.
pub open spec fn open_options_spec(flags: i32) -> OpenOptions {
    OpenOptions {
        read: flags & O_ACCMODE != O_WRONLY,
        write: flags & O_ACCMODE != O_RDONLY,
        append: flag_set(flags, O_APPEND),
        create: flag_set(flags, O_CREAT),
        truncate: flag_set(flags, O_TRUNC),
    }
}

/// Checks `open` flags. Unsupported flags are a fatal guest error: the
/// caller aborts on `Err` before it opens anything.
pub fn check_open_flags(flags: i32) -> (r: Result<(), OpenFlagsError>)
    ensures
        r.is_ok() <==> open_flags_error(flags).is_none(),
        r.is_err() ==> r == Err::<(), OpenFlagsError>(open_flags_error(flags).unwrap()),
{
    if flags & O_ACCMODE == O_ACCMODE {
        return Err(OpenFlagsError::BadAccessMode);
    }
    if flags & !O_KNOWN != 0 {
        return Err(OpenFlagsError::UnknownFlag);
    }
    if flags & O_NOFOLLOW != 0 {
        return Err(OpenFlagsError::NoFollow);
    }
    if flags & O_EXCL != 0 {
        return Err(OpenFlagsError::Exclusive);
    }
    Ok(())
}

/// Translates supported `open` flags into host open options. The
/// non-blocking flag is ignored.
pub fn open_options(flags: i32) -> (r: OpenOptions)
    requires
        open_flags_error(flags).is_none(),
    ensures
        r == open_options_spec(flags),
{
    OpenOptions {
        read: flags & O_ACCMODE != O_WRONLY,
        write: flags & O_ACCMODE != O_RDONLY,
        append: flags & O_APPEND != 0,
        create: flags & O_CREAT != 0,
        truncate: flags & O_TRUNC != 0,
    }
}

/// The index must leave the descriptor within the `i32` range.
pub fn file_idx_to_fd(idx: usize) -> (r: i32)
    requires
        idx + NORMAL_FILENO_BASE <= i32::MAX,
    ensures
        r == idx + NORMAL_FILENO_BASE,
{
    idx as i32 + NORMAL_FILENO_BASE
}

/// The table index of descriptor `fd`; `None` for the standard streams and
/// negative descriptors.
pub fn fd_to_file_idx(fd: i32) -> (r: Option<usize>)
    ensures
        r.is_some() <==> fd >= NORMAL_FILENO_BASE,
        r.is_some() ==> r.unwrap() == fd - NORMAL_FILENO_BASE,
{
    if fd >= NORMAL_FILENO_BASE {
        Some((fd - NORMAL_FILENO_BASE) as usize)
    } else {
        None
    }
}

/// The table of open files, by index; a freed index holds `None`.
pub struct State<F> {
    files: Vec<Option<F>>,
}

/// Index `i` is where `open` puts a new file: the first free index, or the
/// end of the table when none is free.
pub open spec fn is_first_free<F>(files: Seq<Option<F>>, i: int) -> bool {
    &&& 0 <= i <= files.len()
    &&& (i < files.len() ==> files[i].is_none())
    &&& forall|j: int| 0 <= j < i ==> (#[trigger] files[j]).is_some()
}

/// The table entry of descriptor `fd`, if it names an open file.
pub open spec fn file_of<F>(files: Seq<Option<F>>, fd: int) -> Option<F> {
    if fd >= NORMAL_FILENO_BASE && fd - NORMAL_FILENO_BASE < files.len() {
        files[fd - NORMAL_FILENO_BASE]
    } else {
        None
    }
}

impl<F> State<F> {
    /// The table's entries, by index.
    pub closed spec fn files(self) -> Seq<Option<F>> {
        self.files@
    }

    /// An empty table.
    pub fn new() -> (r: State<F>)
        ensures
            r.files().len() == 0,
    {
        State { files: Vec::new() }
    }

    /// The open file that `fd` names, if any.
    pub fn file_for_fd(&self, fd: i32) -> (r: Option<&F>)
        ensures
            r.is_some() <==> file_of(self.files(), fd as int).is_some(),
            r.is_some() ==> *r.unwrap() == file_of(self.files(), fd as int).unwrap(),
    {
        match fd_to_file_idx(fd) {
            Some(idx) => {
                if idx < self.files.len() {
                    match &self.files[idx] {
                        Some(f) => Some(f),
                        None => None,
                    }
                } else {
                    None
                }
            },
            None => None,
        }
    }
}

/// Puts a newly opened file into the table and returns its descriptor, or
/// returns -1 when the host could not open it (`None`) or no descriptor is
/// left.
pub fn open<F>(state: &mut State<F>, opened: Option<F>) -> (r: i32)
    ensures
        opened.is_none() ==> r == -1 && final(state).files() == old(state).files(),
        opened.is_some() ==> exists|i: int|
            is_first_free(old(state).files(), i) && if i + NORMAL_FILENO_BASE <= i32::MAX {
                &&& r == i + NORMAL_FILENO_BASE
                &&& i < old(state).files().len() ==> final(state).files() == old(
                    state,
                ).files().update(i, opened)
                &&& i == old(state).files().len() ==> final(state).files() == old(
                    state,
                ).files().push(opened)
            } else {
                r == -1 && final(state).files() == old(state).files()
            },
{
    if opened.is_none() {
        return -1;
    }
    let n = state.files.len();
    let mut i: usize = 0;
    while i < n && state.files[i].is_some()
        invariant
            n == state.files@.len(),
            0 <= i <= n,
            forall|j: int| 0 <= j < i ==> (#[trigger] state.files@[j]).is_some(),
        decreases n - i,
    {
        i = i + 1;
    }
    assert(is_first_free(old(state).files(), i as int));
    if i > (i32::MAX - NORMAL_FILENO_BASE) as usize {
        return -1;
    }
    let fd = file_idx_to_fd(i);
    if i < n {
        state.files.set(i, opened);
    } else {
        state.files.push(opened);
    }
    fd
}

/// The result that `read` reports for what the host read: the byte count,
/// or -1 on failure or when the count does not fit the result.
pub open spec fn read_result_spec(outcome: Option<usize>) -> int {
    match outcome {
        Some(n) => if n <= i32::MAX {
            n as int
        } else {
            -1
        },
        None => -1,
    }
}

/// The result that `read` reports for what the host read.
pub fn read_result(outcome: Option<usize>) -> (r: i32)
    ensures
        r == read_result_spec(outcome),
{
    match outcome {
        Some(n) => if n <= i32::MAX as usize {
            n as i32
        } else {
            -1
        },
        None => -1,
    }
}

/// Reads from the file that `fd` names into `buf`; -1 when `fd` names no
/// open file or the read fails. Only the file read from can change, and
/// `buf` only when there is one.
pub fn read<F: HostFile>(state: &mut State<F>, fd: i32, buf: &mut Vec<u8>) -> (r: i32)
    ensures
        file_of(old(state).files(), fd as int).is_none() ==> r == -1 && final(state).files()
            == old(state).files() && final(buf)@ == old(buf)@,
        r >= -1,
        forall|j: int|
            0 <= j < old(state).files().len() && j != fd - NORMAL_FILENO_BASE
                ==> #[trigger] final(state).files()[j] == old(state).files()[j],
        final(state).files().len() == old(state).files().len(),
        forall|j: int|
            0 <= j < old(state).files().len() ==> (#[trigger] final(state).files()[j]).is_some()
                == old(state).files()[j].is_some(),
{
    let idx = match fd_to_file_idx(fd) {
        Some(idx) => idx,
        None => return -1,
    };
    if idx >= state.files.len() {
        return -1;
    }
    let mut slot: Option<F> = None;
    state.files.set_and_swap(idx, &mut slot);
    match slot {
        Some(mut file) => {
            let outcome = file.read_into(buf);
            state.files.set(idx, Some(file));
            read_result(outcome)
        },
        None => {
            state.files.set(idx, None);
            assert(state.files@ =~= old(state).files@);
            -1
        },
    }
}

/// Closes the file that `fd` names, freeing its index: 0 when it was flushed,
/// -1 when flushing failed or `fd` names no open file.
pub fn close<F: HostFile>(state: &mut State<F>, fd: i32) -> (r: i32)
    ensures
        r == 0 || r == -1,
        file_of(old(state).files(), fd as int).is_none() ==> r == -1 && final(state).files()
            == old(state).files(),
        file_of(old(state).files(), fd as int).is_some() ==> final(state).files() == old(
            state,
        ).files().update(fd - NORMAL_FILENO_BASE, None),
{
    let idx = match fd_to_file_idx(fd) {
        Some(idx) => idx,
        None => return -1,
    };
    if idx >= state.files.len() {
        return -1;
    }
    let mut slot: Option<F> = None;
    state.files.set_and_swap(idx, &mut slot);
    match slot {
        Some(mut file) => {
            if file.sync_all() {
                0
            } else {
                -1
            }
        },
        None => {
            assert(state.files@ =~= old(state).files@);
            -1
        },
    }
}

} // verus!

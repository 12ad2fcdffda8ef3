//! The in-memory file system: a read-only set of embedded files and the
//! writable files that programs work on, both addressed by name.

use vstd::prelude::*;
use vstd::slice::slice_to_vec;
use crate::text::{overlay, str_eq, zeros};

verus! {

/// Mode that a new or truncated file gets.
pub const MODE_NEW: u32 = 0o600;

/// Mode that an embedded program gets in the writable layer.
pub const MODE_PROGRAM: u32 = 0o755;

/// Mode that any other embedded file gets in the writable layer.
pub const MODE_DATA: u32 = 0o644;

/// Mode reported for a file of the read-only layer.
pub const MODE_READ_ONLY: u32 = 0o444;

/// A file of the read-only layer.
pub struct File {
    pub name: &'static str,
    pub data: &'static [u8],
}

/// A file of the writable layer.
pub struct WritableFile {
    pub name: String,
    pub data: Vec<u8>,
    pub mode: u32,
}

/// What `stat_file` reports.
pub struct FileStat {
    pub size: usize,
    pub mode: u32,
    pub is_writable: bool,
}

/// Both layers of the file system.
pub struct RamFs {
    /// The embedded files, in their order.
    pub ro: Vec<File>,
    /// The writable files, in the order of their creation.
    pub files: Vec<WritableFile>,
}

/// Whether `i` is the first writable file called `name`.
pub open spec fn is_first(files: Seq<WritableFile>, name: Seq<char>, i: int) -> bool {
    &&& 0 <= i < files.len()
    &&& files[i].name@ == name
    &&& forall|j: int| 0 <= j < i ==> #[trigger] files[j].name@ != name
}

/// Whether no writable file is called `name`.
pub open spec fn absent(files: Seq<WritableFile>, name: Seq<char>) -> bool {
    forall|j: int| 0 <= j < files.len() ==> #[trigger] files[j].name@ != name
}

/// Whether `i` is the first embedded file called `name`.
pub open spec fn ro_is_first(ro: Seq<File>, name: Seq<char>, i: int) -> bool {
    &&& 0 <= i < ro.len()
    &&& ro[i].name@ == name
    &&& forall|j: int| 0 <= j < i ==> #[trigger] ro[j].name@ != name
}

/// Whether no embedded file is called `name`.
pub open spec fn ro_absent(ro: Seq<File>, name: Seq<char>) -> bool {
    forall|j: int| 0 <= j < ro.len() ==> #[trigger] ro[j].name@ != name
}

/// Index of the first writable file called `name`.
pub open spec fn find(files: Seq<WritableFile>, name: Seq<char>) -> Option<int> {
    if exists|i: int| is_first(files, name, i) {
        Some(choose|i: int| is_first(files, name, i))
    } else {
        None
    }
}

/// Index of the first embedded file called `name`.
pub open spec fn ro_find(ro: Seq<File>, name: Seq<char>) -> Option<int> {
    if exists|i: int| ro_is_first(ro, name, i) {
        Some(choose|i: int| ro_is_first(ro, name, i))
    } else {
        None
    }
}

/// The first file of a name is found, and only it; none is found where the
/// name is absent.
pub proof fn lemma_find(files: Seq<WritableFile>, name: Seq<char>)
    ensures
        forall|i: int| is_first(files, name, i) ==> find(files, name) == Some(i),
        absent(files, name) <==> find(files, name) is None,
        find(files, name) is Some ==> is_first(files, name, find(files, name).unwrap()),
{
    assert forall|i: int| is_first(files, name, i) implies find(files, name) == Some(i) by {
        let j = choose|j: int| is_first(files, name, j);
        assert(is_first(files, name, j));
        if j < i {
            assert(files[j].name@ != name);
        }
        if i < j {
            assert(files[i].name@ != name);
        }
    }
    if !absent(files, name) {
        lemma_first_exists(files, name, files.len() as int);
    }
    if find(files, name) is Some {
        let j = choose|j: int| is_first(files, name, j);
        assert(files[j].name@ == name);
    }
}

proof fn lemma_first_exists(files: Seq<WritableFile>, name: Seq<char>, n: int)
    requires
        0 <= n <= files.len(),
        exists|j: int| 0 <= j < n && files[j].name@ == name,
    ensures
        exists|i: int| is_first(files, name, i),
    decreases n,
{
    if exists|j: int| 0 <= j < n - 1 && files[j].name@ == name {
        lemma_first_exists(files, name, n - 1);
    } else {
        assert(is_first(files, name, n - 1));
    }
}

/// The first embedded file of a name is found, and only it; none is found
/// where the name is absent.
pub proof fn lemma_ro_find(ro: Seq<File>, name: Seq<char>)
    ensures
        forall|i: int| ro_is_first(ro, name, i) ==> ro_find(ro, name) == Some(i),
        ro_absent(ro, name) <==> ro_find(ro, name) is None,
        ro_find(ro, name) is Some ==> ro_is_first(ro, name, ro_find(ro, name).unwrap()),
{
    assert forall|i: int| ro_is_first(ro, name, i) implies ro_find(ro, name) == Some(i) by {
        let j = choose|j: int| ro_is_first(ro, name, j);
        assert(ro_is_first(ro, name, j));
        if j < i {
            assert(ro[j].name@ != name);
        }
        if i < j {
            assert(ro[i].name@ != name);
        }
    }
    if !ro_absent(ro, name) {
        lemma_ro_first_exists(ro, name, ro.len() as int);
    }
    if ro_find(ro, name) is Some {
        let j = choose|j: int| ro_is_first(ro, name, j);
        assert(ro[j].name@ == name);
    }
}

proof fn lemma_ro_first_exists(ro: Seq<File>, name: Seq<char>, n: int)
    requires
        0 <= n <= ro.len(),
        exists|j: int| 0 <= j < n && ro[j].name@ == name,
    ensures
        exists|i: int| ro_is_first(ro, name, i),
    decreases n,
{
    if exists|j: int| 0 <= j < n - 1 && ro[j].name@ == name {
        lemma_ro_first_exists(ro, name, n - 1);
    } else {
        assert(ro_is_first(ro, name, n - 1));
    }
}

/// Whether `new` is `old` after the file called `name` was created, or
/// emptied where it existed, as file `idx`.
pub open spec fn created(old: Seq<WritableFile>, new: Seq<WritableFile>, name: Seq<char>, idx: int) -> bool {
    &&& is_first(new, name, idx)
    &&& new[idx].data@.len() == 0
    &&& new[idx].mode == MODE_NEW
    &&& idx == (match find(old, name) {
        Some(i) => i,
        None => old.len() as int,
    })
    &&& new.len() == (if find(old, name) is Some {
        old.len()
    } else {
        old.len() + 1
    })
    &&& forall|j: int| 0 <= j < old.len() && j != idx ==> #[trigger] new[j] == old[j]
}

/// Whether `new` is `old` after `data` was written into file `idx` at `offset`.
pub open spec fn wrote(old: Seq<WritableFile>, new: Seq<WritableFile>, idx: int, offset: int, data: Seq<u8>) -> bool {
    &&& 0 <= idx < old.len()
    &&& new.len() == old.len()
    &&& new[idx].data@ == write_data(old[idx].data@, offset, data)
    &&& new[idx].name == old[idx].name
    &&& new[idx].mode == old[idx].mode
    &&& forall|j: int| 0 <= j < old.len() && j != idx ==> #[trigger] new[j] == old[j]
}

/// Whether `new` is `old` after the first file called `name` got `mode`.
pub open spec fn chmodded(old: Seq<WritableFile>, new: Seq<WritableFile>, name: Seq<char>, mode: u32) -> bool {
    &&& find(old, name) is Some
    &&& new.len() == old.len()
    &&& new[find(old, name).unwrap()].mode == mode
    &&& new[find(old, name).unwrap()].name == old[find(old, name).unwrap()].name
    &&& new[find(old, name).unwrap()].data == old[find(old, name).unwrap()].data
    &&& forall|j: int|
        0 <= j < old.len() && j != find(old, name).unwrap() ==> #[trigger] new[j] == old[j]
}

/// Whether `new` is `old` with a copy of every embedded file behind it, in
/// order: programs, whose names end in `.elf`, with mode `0o755`, the others
/// with mode `0o644`.
pub open spec fn initialised(old: Seq<WritableFile>, ro: Seq<File>, new: Seq<WritableFile>) -> bool {
    &&& new.len() == old.len() + ro.len()
    &&& forall|j: int| 0 <= j < old.len() ==> #[trigger] new[j] == old[j]
    &&& forall|i: int|
        0 <= i < ro.len() ==> {
            let f = #[trigger] new[old.len() + i];
            &&& f.name@ == ro[i].name@
            &&& f.data@ == ro[i].data@
            &&& f.mode == initial_mode(vstd::utf8::encode_utf8(ro[i].name@))
        }
}

/// Whether no two writable files share a name.
pub open spec fn unique_names(files: Seq<WritableFile>) -> bool {
    forall|i: int, j: int|
        0 <= i < j < files.len() ==> #[trigger] files[i].name@ != #[trigger] files[j].name@
}

/// A file's bytes after `src` was written at `off`: the file grows to hold
/// the write, with zeros in any gap, and the bytes written replace what was
/// there.
pub open spec fn write_data(data: Seq<u8>, off: int, src: Seq<u8>) -> Seq<u8> {
    if off + src.len() > data.len() {
        overlay(data + zeros((off + src.len() - data.len()) as nat), off, src)
    } else {
        overlay(data, off, src)
    }
}

/// How many bytes a read of `want` bytes at `off` gets from a file of `len` bytes.
pub open spec fn read_len(len: int, off: int, want: int) -> int {
    if off >= len {
        0
    } else if want <= len - off {
        want
    } else {
        len - off
    }
}

/// The bytes that a read of `want` bytes at `off` gets.
pub open spec fn read_data(data: Seq<u8>, off: int, want: int) -> Seq<u8> {
    if off >= data.len() {
        Seq::empty()
    } else {
        data.subrange(off, off + read_len(data.len() as int, off, want))
    }
}

/// Whether a name ends in `.elf`, byte for byte.
pub open spec fn is_program_name(name: Seq<u8>) -> bool {
    name.len() >= 4 && name[name.len() - 4] == 0x2e && name[name.len() - 3] == 0x65 && name[name.len()
        - 2] == 0x6c && name[name.len() - 1] == 0x66
}

/// The mode that an embedded file gets in the writable layer.
pub open spec fn initial_mode(name: Seq<u8>) -> u32 {
    if is_program_name(name) {
        MODE_PROGRAM
    } else {
        MODE_DATA
    }
}

/// The directory listing of the first `k` files: each name's bytes, then a
/// zero byte.
pub open spec fn listing(files: Seq<WritableFile>, k: int) -> Seq<u8>
    decreases k,
{
    if k <= 0 {
        Seq::empty()
    } else {
        listing(files, k - 1) + vstd::utf8::encode_utf8(files[k - 1].name@) + seq![0u8]
    }
}

/// How many names, from the first on, fit whole into `room` bytes: the
/// listing stops at the first name that does not.
pub open spec fn listed(files: Seq<WritableFile>, room: int, k: int) -> int
    decreases files.len() - k,
{
    if k < 0 || k >= files.len() || listing(files, k + 1).len() > room {
        k
    } else {
        listed(files, room, k + 1)
    }
}

/// Index of the first writable file called `name`.
fn position(files: &Vec<WritableFile>, name: &str) -> (r: Option<usize>)
    ensures
        match r {
            Some(i) => is_first(files@, name@, i as int),
            None => absent(files@, name@),
        },
{
    let mut i: usize = 0;
    while i < files.len()
        invariant
            i <= files.len(),
            forall|j: int| 0 <= j < i ==> #[trigger] files@[j].name@ != name@,
        decreases files.len() - i,
    {
        if str_eq(files[i].name.as_str(), name) {
            return Some(i);
        }
        i += 1;
    }
    None
}

/// Index of the first embedded file called `name`.
pub fn lookup_index(fs: &RamFs, name: &str) -> (r: Option<usize>)
    ensures
        match r {
            Some(i) => ro_is_first(fs.ro@, name@, i as int),
            None => ro_absent(fs.ro@, name@),
        },
{
    let mut i: usize = 0;
    while i < fs.ro.len()
        invariant
            i <= fs.ro.len(),
            forall|j: int| 0 <= j < i ==> #[trigger] fs.ro@[j].name@ != name@,
        decreases fs.ro.len() - i,
    {
        if str_eq(fs.ro[i].name, name) {
            return Some(i);
        }
        i += 1;
    }
    None
}

/// The first embedded file called `name`.
pub fn lookup<'a>(fs: &'a RamFs, name: &str) -> (r: Option<&'a File>)
    ensures
        match r {
            Some(f) => exists|i: int| ro_is_first(fs.ro@, name@, i) && *f == fs.ro@[i],
            None => ro_absent(fs.ro@, name@),
        },
{
    match lookup_index(fs, name) {
        Some(i) => Some(&fs.ro[i]),
        None => None,
    }
}

impl RamFs {
    /// A file system with the given embedded files and no writable ones.
    pub fn new(ro: Vec<File>) -> (r: Self)
        ensures
            r.ro@ == ro@,
            r.files@.len() == 0,
    {
        RamFs { ro, files: Vec::new() }
    }
}

/// Creates an empty file called `name`, or empties the first file of that
/// name; either way the file ends with mode `0o600`. Returns its index.
pub fn create_file(fs: &mut RamFs, name: &str) -> (r: Result<usize, ()>)
    ensures
        final(fs).ro == old(fs).ro,
        r is Ok,
        ({
            let idx = r.unwrap() as int;
            &&& is_first(final(fs).files@, name@, idx)
            &&& final(fs).files@[idx].data@.len() == 0
            &&& final(fs).files@[idx].mode == MODE_NEW
            &&& absent(old(fs).files@, name@) ==> idx == old(fs).files@.len() && final(fs).files@.len()
                == old(fs).files@.len() + 1
            &&& !absent(old(fs).files@, name@) ==> is_first(old(fs).files@, name@, idx) && final(fs).files@.len() == old(fs).files@.len()
            &&& forall|j: int|
                0 <= j < old(fs).files@.len() && j != idx ==> #[trigger] final(fs).files@[j] == old(fs).files@[j]
        }),
        unique_names(old(fs).files@) ==> unique_names(final(fs).files@),
        created(old(fs).files@, final(fs).files@, name@, r.unwrap() as int),
{
    proof {
        lemma_find(fs.files@, name@);
    }
    match position(&fs.files, name) {
        Some(idx) => {
            let f = &mut fs.files[idx];
            f.data.clear();
            f.mode = MODE_NEW;
            Ok(idx)
        },
        None => {
            fs.files.push(WritableFile { name: name.to_owned(), data: Vec::new(), mode: MODE_NEW });
            Ok(fs.files.len() - 1)
        },
    }
}

/// Index of the first writable file called `name`.
pub fn lookup_writable(fs: &RamFs, name: &str) -> (r: Option<usize>)
    ensures
        match r {
            Some(i) => is_first(fs.files@, name@, i as int),
            None => absent(fs.files@, name@),
        },
{
    position(&fs.files, name)
}

/// Writes `data` into file `idx` at `offset`, growing the file as needed.
/// Fails for an index that names no file, and for a write that would end
/// past the largest size a file can have.
pub fn write_file(fs: &mut RamFs, idx: usize, offset: usize, data: &[u8]) -> (r: Result<usize, ()>)
    ensures
        final(fs).ro == old(fs).ro,
        final(fs).files@.len() == old(fs).files@.len(),
        r is Ok <==> idx < old(fs).files@.len() && offset + data@.len() <= usize::MAX,
        r is Ok ==> r.unwrap() == data@.len() && final(fs).files@[idx as int].data@ == write_data(
            old(fs).files@[idx as int].data@,
            offset as int,
            data@,
        ) && final(fs).files@[idx as int].name == old(fs).files@[idx as int].name && final(fs).files@[idx as int].mode == old(fs).files@[idx as int].mode,
        r is Err ==> final(fs).files@ == old(fs).files@,
        forall|j: int|
            0 <= j < old(fs).files@.len() && j != idx ==> #[trigger] final(fs).files@[j] == old(fs).files@[j],
        r is Ok ==> wrote(old(fs).files@, final(fs).files@, idx as int, offset as int, data@),
{
    if idx >= fs.files.len() {
        return Err(());
    }
    let n = data.len();
    if offset > usize::MAX - n {
        return Err(());
    }
    let end_pos = offset + n;
    let f = &mut fs.files[idx];
    let ghost before = f.data@;
    let ghost name0 = f.name;
    let ghost mode0 = f.mode;
    while f.data.len() < end_pos
        invariant
            f.name == name0,
            f.mode == mode0,
            f.data@.len() <= end_pos || before.len() > end_pos,
            before.len() >= end_pos ==> f.data@.len() == before.len(),
            f.data@.len() >= before.len(),
            f.data@ == before + zeros((f.data@.len() - before.len()) as nat),
        decreases end_pos - f.data@.len(),
    {
        f.data.push(0);
        assert(f.data@ =~= before + zeros((f.data@.len() - before.len()) as nat));
    }
    let ghost grown = f.data@;
    let mut i: usize = 0;
    while i < n
        invariant
            f.name == name0,
            f.mode == mode0,
            i <= n,
            n == data@.len(),
            end_pos == offset + n,
            f.data@.len() == grown.len(),
            end_pos <= grown.len(),
            f.data@ == overlay(grown, offset as int, data@.take(i as int)),
        decreases n - i,
    {
        f.data.set(offset + i, data[i]);
        assert(f.data@ =~= overlay(grown, offset as int, data@.take(i + 1)));
        i += 1;
    }
    proof {
        assert(data@.take(n as int) =~= data@);
        assert(before + zeros(0) =~= before);
    }
    Ok(n)
}

/// Reads from file `idx` at `offset` into the front of `buf`, as many bytes
/// as the file has from there on and `buf` can take. Fails for an index that
/// names no file.
pub fn read_file(fs: &RamFs, idx: usize, offset: usize, buf: &mut Vec<u8>) -> (r: Result<usize, ()>)
    ensures
        r is Ok <==> idx < fs.files@.len(),
        final(buf)@.len() == old(buf)@.len(),
        r is Err ==> final(buf)@ == old(buf)@,
        r is Ok ==> ({
            let n = r.unwrap() as int;
            let data = fs.files@[idx as int].data@;
            &&& n == read_len(data.len() as int, offset as int, old(buf)@.len() as int)
            &&& final(buf)@ == overlay(old(buf)@, 0, read_data(data, offset as int, old(buf)@.len() as int))
        }),
{
    if idx >= fs.files.len() {
        return Err(());
    }
    let f = &fs.files[idx];
    let len = f.data.len();
    if offset >= len {
        assert(buf@ =~= overlay(buf@, 0, Seq::<u8>::empty()));
        return Ok(0);
    }
    let avail = len - offset;
    let n = if buf.len() <= avail {
        buf.len()
    } else {
        avail
    };
    let mut i: usize = 0;
    while i < n
        invariant
            i <= n,
            n <= buf@.len(),
            len == f.data@.len(),
            offset + n <= f.data@.len(),
            buf@.len() == old(buf)@.len(),
            buf@ == overlay(old(buf)@, 0, f.data@.subrange(offset as int, offset + i)),
        decreases n - i,
    {
        buf.set(i, f.data[offset + i]);
        assert(buf@ =~= overlay(old(buf)@, 0, f.data@.subrange(offset as int, offset + i + 1)));
        i += 1;
    }
    proof {
        assert(old(buf)@ =~= overlay(old(buf)@, 0, f.data@.subrange(offset as int, offset as int)));
    }
    Ok(n)
}

/// Size of file `idx`.
pub fn file_size(fs: &RamFs, idx: usize) -> (r: Option<usize>)
    ensures
        r == (if idx < fs.files@.len() {
            Some(fs.files@[idx as int].data@.len() as usize)
        } else {
            None
        }),
{
    if idx < fs.files.len() {
        Some(fs.files[idx].data.len())
    } else {
        None
    }
}

/// Removes the first writable file called `name`. Fails if there is none.
pub fn unlink_file(fs: &mut RamFs, name: &str) -> (r: Result<(), ()>)
    ensures
        final(fs).ro == old(fs).ro,
        r is Err <==> absent(old(fs).files@, name@),
        r is Err ==> final(fs).files@ == old(fs).files@,
        r is Ok ==> exists|i: int|
            is_first(old(fs).files@, name@, i) && final(fs).files@ == old(fs).files@.remove(i),
        unique_names(old(fs).files@) ==> unique_names(final(fs).files@),
        r is Ok && unique_names(old(fs).files@) ==> absent(final(fs).files@, name@),
        r is Ok ==> final(fs).files@ == old(fs).files@.remove(find(old(fs).files@, name@).unwrap()),
{
    proof {
        lemma_find(fs.files@, name@);
    }
    match position(&fs.files, name) {
        Some(idx) => {
            fs.files.remove(idx);
            Ok(())
        },
        None => Err(()),
    }
}

/// Sets the mode of the first writable file called `name`. Fails if there is
/// none.
pub fn chmod_file(fs: &mut RamFs, name: &str, mode: u32) -> (r: Result<(), ()>)
    ensures
        final(fs).ro == old(fs).ro,
        final(fs).files@.len() == old(fs).files@.len(),
        r is Err <==> absent(old(fs).files@, name@),
        r is Err ==> final(fs).files@ == old(fs).files@,
        r is Ok ==> exists|i: int|
            is_first(old(fs).files@, name@, i) && final(fs).files@[i].mode == mode && final(fs).files@[i].name == old(fs).files@[i].name && final(fs).files@[i].data == old(fs).files@[i].data && forall|j: int|
                0 <= j < old(fs).files@.len() && j != i ==> #[trigger] final(fs).files@[j] == old(fs).files@[j],
        r is Ok ==> chmodded(old(fs).files@, final(fs).files@, name@, mode),
{
    proof {
        lemma_find(fs.files@, name@);
    }
    match position(&fs.files, name) {
        Some(idx) => {
            let f = &mut fs.files[idx];
            f.mode = mode;
            Ok(())
        },
        None => Err(()),
    }
}

/// Whether a file called `name` exists in either layer.
pub fn file_exists(fs: &RamFs, name: &str) -> (r: bool)
    ensures
        r == (!absent(fs.files@, name@) || !ro_absent(fs.ro@, name@)),
{
    if lookup_writable(fs, name).is_some() {
        return true;
    }
    lookup_index(fs, name).is_some()
}

/// Size and mode of the file called `name`: of the first writable file of
/// that name, else of the first embedded one, which reports mode `0o444`.
pub fn stat_file(fs: &RamFs, name: &str) -> (r: Option<FileStat>)
    ensures
        r is None <==> absent(fs.files@, name@) && ro_absent(fs.ro@, name@),
        r is Some && !absent(fs.files@, name@) ==> exists|i: int|
            is_first(fs.files@, name@, i) && r.unwrap().size == fs.files@[i].data@.len()
                && r.unwrap().mode == fs.files@[i].mode && r.unwrap().is_writable,
        r is Some && absent(fs.files@, name@) ==> exists|i: int|
            ro_is_first(fs.ro@, name@, i) && r.unwrap().size == fs.ro@[i].data@.len() && r.unwrap().mode
                == MODE_READ_ONLY && !r.unwrap().is_writable,
{
    match position(&fs.files, name) {
        Some(i) => {
            let f = &fs.files[i];
            Some(FileStat { size: f.data.len(), mode: f.mode, is_writable: true })
        },
        None => match lookup_index(fs, name) {
            Some(i) => {
                let f = &fs.ro[i];
                Some(FileStat { size: f.data.len(), mode: MODE_READ_ONLY, is_writable: false })
            },
            None => None,
        },
    }
}

/// A copy of the bytes of the first writable file called `name`.
pub fn get_file_data(fs: &RamFs, name: &str) -> (r: Option<Vec<u8>>)
    ensures
        match r {
            Some(d) => exists|i: int| is_first(fs.files@, name@, i) && d@ == fs.files@[i].data@,
            None => absent(fs.files@, name@),
        },
{
    match position(&fs.files, name) {
        Some(i) => Some(fs.files[i].data.clone()),
        None => None,
    }
}

/// Writes the names of the writable files into the front of `buf`, each
/// followed by a zero byte, in order, until one does not fit whole. Returns
/// how many names were written.
pub fn list_writable_files(fs: &RamFs, buf: &mut Vec<u8>) -> (count: usize)
    ensures
        count == listed(fs.files@, old(buf)@.len() as int, 0),
        count <= fs.files@.len(),
        listing(fs.files@, count as int).len() <= old(buf)@.len(),
        final(buf)@ == overlay(old(buf)@, 0, listing(fs.files@, count as int)),
{
    let room = buf.len();
    let mut offset: usize = 0;
    let mut count: usize = 0;
    proof {
        assert(buf@ =~= overlay(buf@, 0, listing(fs.files@, 0)));
    }
    while count < fs.files.len()
        invariant
            count <= fs.files@.len(),
            room == buf@.len(),
            room == old(buf)@.len(),
            offset == listing(fs.files@, count as int).len(),
            offset <= room,
            listed(fs.files@, room as int, count as int) == listed(fs.files@, room as int, 0),
            buf@ == overlay(old(buf)@, 0, listing(fs.files@, count as int)),
        decreases fs.files@.len() - count,
    {
        let name = fs.files[count].name.as_str().as_bytes();
        let n = name.len();
        if n >= room - offset {
            return count;
        }
        let ghost before = buf@;
        let ghost done = listing(fs.files@, count as int);
        let mut i: usize = 0;
        while i < n
            invariant
                i <= n,
                n == name@.len(),
                offset + n < room,
                room == buf@.len(),
                buf@ == overlay(before, offset as int, name@.take(i as int)),
            decreases n - i,
        {
            buf.set(offset + i, name[i]);
            assert(buf@ =~= overlay(before, offset as int, name@.take(i + 1)));
            i += 1;
        }
        buf.set(offset + n, 0);
        proof {
            assert(name@.take(n as int) =~= name@);
            assert(before =~= overlay(before, offset as int, name@.take(0)));
            assert(buf@ =~= overlay(old(buf)@, 0, done + name@ + seq![0u8]));
        }
        offset = offset + n + 1;
        count += 1;
    }
    count
}

/// Whether a name ends in `.elf`.
fn is_program(name: &[u8]) -> (r: bool)
    ensures
        r == is_program_name(name@),
{
    let n = name.len();
    n >= 4 && name[n - 4] == 0x2e && name[n - 3] == 0x65 && name[n - 2] == 0x6c && name[n - 1] == 0x66
}

/// Copies every embedded file into the writable layer, behind the files that
/// are there: programs, whose names end in `.elf`, with mode `0o755`, the
/// others with mode `0o644`.
pub fn init_writable_fs(fs: &mut RamFs)
    ensures
        final(fs).ro == old(fs).ro,
        final(fs).files@.len() == old(fs).files@.len() + old(fs).ro@.len(),
        forall|j: int| 0 <= j < old(fs).files@.len() ==> #[trigger] final(fs).files@[j] == old(fs).files@[j],
        forall|i: int|
            0 <= i < old(fs).ro@.len() ==> {
                let f = #[trigger] final(fs).files@[old(fs).files@.len() + i];
                &&& f.name@ == old(fs).ro@[i].name@
                &&& f.data@ == old(fs).ro@[i].data@
                &&& f.mode == initial_mode(vstd::utf8::encode_utf8(old(fs).ro@[i].name@))
            },
        initialised(old(fs).files@, old(fs).ro@, final(fs).files@),
{
    let n = fs.ro.len();
    let ghost base = fs.files@.len();
    let mut i: usize = 0;
    while i < n
        invariant
            i <= n,
            n == fs.ro@.len(),
            fs.ro == old(fs).ro,
            base == old(fs).files@.len(),
            fs.files@.len() == base + i,
            forall|j: int| 0 <= j < base ==> #[trigger] fs.files@[j] == old(fs).files@[j],
            forall|k: int|
                0 <= k < i ==> {
                    let f = #[trigger] fs.files@[base + k];
                    &&& f.name@ == fs.ro@[k].name@
                    &&& f.data@ == fs.ro@[k].data@
                    &&& f.mode == initial_mode(vstd::utf8::encode_utf8(fs.ro@[k].name@))
                },
        decreases n - i,
    {
        let name: &'static str = fs.ro[i].name;
        let data: &'static [u8] = fs.ro[i].data;
        let mode = if is_program(name.as_bytes()) {
            MODE_PROGRAM
        } else {
            MODE_DATA
        };
        let file = WritableFile { name: name.to_owned(), data: slice_to_vec(data), mode };
        fs.files.push(file);
        i += 1;
    }
}

/// The length of what a sequence of writes, each an offset and its bytes,
/// reaches: the largest end of any of them.
pub open spec fn writes_end(ws: Seq<(int, Seq<u8>)>) -> int
    decreases ws.len(),
{
    if ws.len() == 0 {
        0
    } else {
        let rest = writes_end(ws.drop_last());
        let end = ws.last().0 + ws.last().1.len();
        if end > rest {
            end
        } else {
            rest
        }
    }
}

/// A file's bytes after a sequence of writes.
pub open spec fn apply_writes(data: Seq<u8>, ws: Seq<(int, Seq<u8>)>) -> Seq<u8>
    decreases ws.len(),
{
    if ws.len() == 0 {
        data
    } else {
        write_data(apply_writes(data, ws.drop_last()), ws.last().0, ws.last().1)
    }
}

/// A buffer with a sequence of writes laid over it, the later over the earlier.
pub open spec fn overlay_all(base: Seq<u8>, ws: Seq<(int, Seq<u8>)>) -> Seq<u8>
    decreases ws.len(),
{
    if ws.len() == 0 {
        base
    } else {
        overlay(overlay_all(base, ws.drop_last()), ws.last().0, ws.last().1)
    }
}

/// Whether no write starts before the file's start.
pub open spec fn valid_writes(ws: Seq<(int, Seq<u8>)>) -> bool {
    forall|i: int| 0 <= i < ws.len() ==> (#[trigger] ws[i]).0 >= 0
}

proof fn lemma_overlay_all_len(base: Seq<u8>, ws: Seq<(int, Seq<u8>)>)
    ensures
        overlay_all(base, ws).len() == base.len(),
    decreases ws.len(),
{
    if ws.len() > 0 {
        lemma_overlay_all_len(base, ws.drop_last());
    }
}

proof fn lemma_overlay_all_padded(base: Seq<u8>, m: nat, ws: Seq<(int, Seq<u8>)>)
    requires
        valid_writes(ws),
        writes_end(ws) <= base.len(),
    ensures
        overlay_all(base + zeros(m), ws) == overlay_all(base, ws) + zeros(m),
    decreases ws.len(),
{
    if ws.len() == 0 {
    } else {
        let head = ws.drop_last();
        assert(valid_writes(head)) by {
            assert forall|i: int| 0 <= i < head.len() implies (#[trigger] head[i]).0 >= 0 by {
                assert(head[i] == ws[i]);
            }
        }
        lemma_overlay_all_padded(base, m, head);
        lemma_overlay_all_len(base, head);
        assert(ws.last() == ws[ws.len() - 1]);
        assert(overlay(overlay_all(base, head) + zeros(m), ws.last().0, ws.last().1) =~= overlay(
            overlay_all(base, head),
            ws.last().0,
            ws.last().1,
        ) + zeros(m));
    }
}

/// After any sequence of writes to an empty file, at offsets that are not
/// negative, the file holds those writes laid in order over zeros, and is as
/// long as the farthest of them reached.
pub proof fn lemma_writes_overlay(ws: Seq<(int, Seq<u8>)>)
    requires
        valid_writes(ws),
    ensures
        apply_writes(Seq::empty(), ws) == overlay_all(zeros(writes_end(ws) as nat), ws),
        apply_writes(Seq::empty(), ws).len() == writes_end(ws),
        writes_end(ws) >= 0,
    decreases ws.len(),
{
    if ws.len() == 0 {
        assert(zeros(0) =~= Seq::<u8>::empty());
    } else {
        let head = ws.drop_last();
        assert(valid_writes(head)) by {
            assert forall|i: int| 0 <= i < head.len() implies (#[trigger] head[i]).0 >= 0 by {
                assert(head[i] == ws[i]);
            }
        }
        lemma_writes_overlay(head);
        assert(ws.last() == ws[ws.len() - 1]);
        let n0 = writes_end(head);
        let n1 = writes_end(ws);
        let off = ws.last().0;
        let src = ws.last().1;
        lemma_overlay_all_padded(zeros(n0 as nat), (n1 - n0) as nat, head);
        assert(zeros(n0 as nat) + zeros((n1 - n0) as nat) =~= zeros(n1 as nat));
        lemma_overlay_all_len(zeros(n0 as nat), head);
        if off + src.len() > n0 {
        } else {
            assert(overlay_all(zeros(n0 as nat), head) + zeros(0) =~= overlay_all(zeros(n0 as nat), head));
        }
    }
}

/// Reading a file from its start with room for all of it gives its bytes.
pub proof fn lemma_read_all(data: Seq<u8>, want: int)
    requires
        want >= data.len(),
    ensures
        read_data(data, 0, want) == data,
{
    if data.len() > 0 {
        assert(data.subrange(0, data.len() as int) =~= data);
    }
}

/// What is written at the start of an empty file is what a read of that
/// length from the start gives back.
pub proof fn lemma_write_read_roundtrip(src: Seq<u8>)
    ensures
        write_data(Seq::empty(), 0, src) == src,
        read_data(write_data(Seq::empty(), 0, src), 0, src.len() as int) == src,
{
    assert(write_data(Seq::empty(), 0, src) =~= src);
    lemma_read_all(src, src.len() as int);
}

} // verus!

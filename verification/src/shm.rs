//! Shared-memory name and path rewriting, and the decisions of the
//! directory-creation and raw-syscall hooks.
//!
//! glibc keeps a POSIX shared-memory object `/x` as the file `/dev/shm/x`.
//! Names with further slashes, such as `/a/b`, would need a directory under
//! `/dev/shm`; the hooks flatten them instead, replacing every slash after the
//! leading one (or after `/dev/shm/`) by an underscore.

use vstd::prelude::*;

verus! {

/// Longest shared-memory name (leading slash included) that is rewritten.
pub const SHM_NAME_MAX: usize = 255;

/// Size of the buffer that receives a rewritten name and its NUL terminator.
pub const SHM_NAME_BUF_LEN: usize = 256;

/// The directory under which glibc keeps POSIX shared-memory objects.
pub const DEV_SHM_PREFIX: [u8; 9] = [47, 100, 101, 118, 47, 115, 104, 109, 47];

/// Length of `DEV_SHM_PREFIX`.
pub const DEV_SHM_PREFIX_LEN: usize = 9;

/// Size of the buffer that receives a rewritten `/dev/shm/` path and its NUL
/// terminator.
pub const DEV_SHM_PATH_BUF_LEN: usize = 265;

/// `open` flag: create the file.
pub const O_CREAT: i32 = 0o100;

/// `open` flag bits of `O_TMPFILE`.
pub const O_TMPFILE_BIT: i32 = 0o20_000_000;

/// `open` flag: the path must be a directory.
pub const O_DIRECTORY: i32 = 0o200_000;

/// errno: function not implemented.
pub const ENOSYS: i32 = 38;

/// errno: bad address.
pub const EFAULT: i32 = 14;

/// errno: file exists.
pub const EEXIST: i32 = 17;

/// The byte `/`.
pub open spec fn slash() -> u8 {
    47u8
}

/// The byte `_`.
pub open spec fn underscore() -> u8 {
    95u8
}

/// The bytes `/dev/shm/`.
pub open spec fn dev_shm_prefix() -> Seq<u8> {
    seq![47u8, 100, 101, 118, 47, 115, 104, 109, 47]
}

/// `s` with every slash at index `start` or later replaced by an underscore.
pub open spec fn flatten_from(s: Seq<u8>, start: int) -> Seq<u8> {
    Seq::new(s.len(), |i: int| if i >= start && s[i] == slash() { underscore() } else { s[i] })
}

/// `path` begins with `/dev/shm/`.
pub open spec fn has_dev_shm_prefix(path: Seq<u8>) -> bool {
    path.len() >= dev_shm_prefix().len() && path.subrange(0, dev_shm_prefix().len() as int) == dev_shm_prefix()
}

/// A path strictly below `/dev/shm/`.
pub open spec fn spec_is_dev_shm_path(path: Seq<u8>) -> bool {
    path.len() > dev_shm_prefix().len() && has_dev_shm_prefix(path)
}

/// A shared-memory name is rewritten when it is at most `SHM_NAME_MAX` bytes
/// long and holds a slash after its first byte.
pub open spec fn shm_name_is_rewritten(name: Seq<u8>) -> bool {
    &&& 1 <= name.len() <= SHM_NAME_MAX
    &&& name.subrange(1, name.len() as int).contains(slash())
}

/// A path is rewritten when it begins with `/dev/shm/` and the rest is at most
/// `SHM_NAME_MAX - 1` bytes long and holds a slash.
pub open spec fn dev_shm_path_is_rewritten(path: Seq<u8>) -> bool {
    &&& has_dev_shm_prefix(path)
    &&& path.len() - dev_shm_prefix().len() <= SHM_NAME_MAX - 1
    &&& path.subrange(dev_shm_prefix().len() as int, path.len() as int).contains(slash())
}

/// Whether `bytes` names something strictly below `/dev/shm/`.
pub fn is_dev_shm_path(bytes: &[u8]) -> (r: bool)
    ensures
        r == spec_is_dev_shm_path(bytes@),
{
    bytes.len() > DEV_SHM_PREFIX_LEN && starts_with_dev_shm(bytes)
}

/// Whether `bytes` begins with `/dev/shm/`.
fn starts_with_dev_shm(bytes: &[u8]) -> (r: bool)
    ensures
        r == has_dev_shm_prefix(bytes@),
{
    if bytes.len() < DEV_SHM_PREFIX_LEN {
        return false;
    }
    let mut i: usize = 0;
    while i < DEV_SHM_PREFIX_LEN
        invariant
            i <= DEV_SHM_PREFIX_LEN,
            bytes@.len() >= DEV_SHM_PREFIX_LEN,
            DEV_SHM_PREFIX@ == dev_shm_prefix(),
            forall|j: int| 0 <= j < i ==> bytes@[j] == dev_shm_prefix()[j],
        decreases DEV_SHM_PREFIX_LEN - i,
    {
        if bytes[i] != DEV_SHM_PREFIX[i] {
            assert(bytes@.subrange(0, 9)[i as int] != dev_shm_prefix()[i as int]);
            return false;
        }
        i = i + 1;
    }
    assert(bytes@.subrange(0, 9) =~= dev_shm_prefix());
    true
}

/// Whether a slash occurs in `s` at index `from` or later.
fn has_slash_from(s: &[u8], from: usize) -> (r: bool)
    requires
        from <= s@.len(),
    ensures
        r == s@.subrange(from as int, s@.len() as int).contains(slash()),
{
    let mut i = from;
    while i < s.len()
        invariant
            from <= i <= s@.len(),
            forall|j: int| from <= j < i ==> s@[j] != slash(),
        decreases s@.len() - i,
    {
        if s[i] == 47 {
            assert(s@.subrange(from as int, s@.len() as int)[i - from] == slash());
            return true;
        }
        i = i + 1;
    }
    assert forall|k: int| 0 <= k < s@.len() - from implies s@.subrange(from as int, s@.len() as int)[k] != slash() by {
        assert(s@.subrange(from as int, s@.len() as int)[k] == s@[from + k]);
    }
    false
}

/// Writes `s`, its slashes from `start` on replaced by underscores, to the
/// front of `buf`, followed by a NUL byte; the rest of `buf` is kept.
fn write_flattened<const N: usize>(s: &[u8], start: usize, buf: &mut [u8; N])
    requires
        s@.len() < N,
    ensures
        final(buf)@ == flatten_from(s@, start as int) + seq![0u8] + old(buf)@.subrange(s@.len() + 1 as int, N as int),
{
    let len = s.len();
    let mut i: usize = 0;
    while i < len
        invariant
            i <= len,
            len == s@.len(),
            len < N,
            buf@.len() == N,
            forall|j: int| 0 <= j < i ==> buf@[j] == flatten_from(s@, start as int)[j],
            forall|j: int| i <= j < N ==> buf@[j] == old(buf)@[j],
        decreases len - i,
    {
        let b = s[i];
        let out = if i >= start && b == 47 { 95u8 } else { b };
        buf[i] = out;
        i = i + 1;
    }
    buf[len] = 0;
    assert(buf@ =~= flatten_from(s@, start as int) + seq![0u8] + old(buf)@.subrange(len + 1, N as int));
}

/// Rewrites a shared-memory name. When `name` is rewritten (see
/// `shm_name_is_rewritten`), `buf` receives the flattened name and a NUL byte
/// and `true` is returned; otherwise `buf` is left alone and the caller keeps
/// the original name.
pub fn sanitize_on_stack(name: &[u8], buf: &mut [u8; 256]) -> (rewritten: bool)
    ensures
        rewritten == shm_name_is_rewritten(name@),
        rewritten ==> final(buf)@ == flatten_from(name@, 1) + seq![0u8] + old(buf)@.subrange(
            name@.len() + 1 as int,
            256,
        ),
        !rewritten ==> *final(buf) == *old(buf),
{
    if name.len() < 1 {
        return false;
    }
    if name.len() > SHM_NAME_MAX || !has_slash_from(name, 1) {
        return false;
    }
    write_flattened(name, 1, buf);
    true
}

/// Rewrites a path below `/dev/shm/`. When `path` is rewritten (see
/// `dev_shm_path_is_rewritten`), `buf` receives the flattened path and a NUL
/// byte and `true` is returned; otherwise `buf` is left alone and the caller
/// keeps the original path.
pub fn sanitize_dev_shm_path(path: &[u8], buf: &mut [u8; 265]) -> (rewritten: bool)
    ensures
        rewritten == dev_shm_path_is_rewritten(path@),
        rewritten ==> final(buf)@ == flatten_from(path@, 9) + seq![0u8] + old(buf)@.subrange(
            path@.len() + 1 as int,
            265,
        ),
        !rewritten ==> *final(buf) == *old(buf),
{
    if !starts_with_dev_shm(path) {
        return false;
    }
    if path.len() - DEV_SHM_PREFIX_LEN > SHM_NAME_MAX - 1 || !has_slash_from(path, DEV_SHM_PREFIX_LEN) {
        return false;
    }
    write_flattened(path, DEV_SHM_PREFIX_LEN, buf);
    true
}

/// Whether `open` with these flags reads its `mode` argument: when it may
/// create a file (`O_CREAT`) or makes an unnamed temporary file
/// (`O_TMPFILE`).
pub fn open_needs_mode(flags: i32) -> (r: bool)
    ensures
        r == ((flags & O_CREAT) != 0 || (flags & O_TMPFILE_BIT) == O_TMPFILE_BIT),
{
    flags & O_CREAT != 0 || flags & O_TMPFILE_BIT == O_TMPFILE_BIT
}

/// A shared-memory name `/n` and the path `/dev/shm/n`, where glibc keeps that
/// object, are rewritten alike: either both or neither, and to the name
/// `/m` and the path `/dev/shm/m` of one flattened `m`. So the
/// shared-memory hooks and the path hooks reach the same file.
pub proof fn law_name_and_path_agree(n: Seq<u8>)
    ensures
        shm_name_is_rewritten(seq![slash()] + n) == dev_shm_path_is_rewritten(dev_shm_prefix() + n),
        flatten_from(seq![slash()] + n, 1) == seq![slash()] + flatten_from(n, 0),
        flatten_from(dev_shm_prefix() + n, 9) == dev_shm_prefix() + flatten_from(n, 0),
{
    let name = seq![slash()] + n;
    let path = dev_shm_prefix() + n;
    assert(name.subrange(1, name.len() as int) =~= n);
    assert(path.subrange(0, 9) =~= dev_shm_prefix());
    assert(path.subrange(9, path.len() as int) =~= n);
    assert(flatten_from(name, 1) =~= seq![slash()] + flatten_from(n, 0));
    assert(flatten_from(path, 9) =~= dev_shm_prefix() + flatten_from(n, 0));
}

/// A rewritten name keeps its length and leading byte, holds no slash after
/// it, and is not rewritten again.
pub proof fn law_name_rewrite_is_final(name: Seq<u8>)
    requires
        shm_name_is_rewritten(name),
    ensures
        flatten_from(name, 1).len() == name.len(),
        flatten_from(name, 1)[0] == name[0],
        !flatten_from(name, 1).subrange(1, name.len() as int).contains(slash()),
        !shm_name_is_rewritten(flatten_from(name, 1)),
{
    let f = flatten_from(name, 1);
    assert forall|k: int| 0 <= k < f.len() - 1 implies f.subrange(1, f.len() as int)[k] != slash() by {
        assert(f.subrange(1, f.len() as int)[k] == f[k + 1]);
    }
}

/// A rewritten path stays below `/dev/shm/`, keeps its length, holds no slash
/// after the prefix, and is not rewritten again.
pub proof fn law_path_rewrite_is_final(path: Seq<u8>)
    requires
        dev_shm_path_is_rewritten(path),
    ensures
        flatten_from(path, 9).len() == path.len(),
        spec_is_dev_shm_path(flatten_from(path, 9)),
        !flatten_from(path, 9).subrange(9, path.len() as int).contains(slash()),
        !dev_shm_path_is_rewritten(flatten_from(path, 9)),
{
    let f = flatten_from(path, 9);
    assert(f.subrange(0, 9) =~= path.subrange(0, 9));
    assert(path.len() > 9) by {
        if path.len() == 9 {
            assert(path.subrange(9, path.len() as int).len() == 0);
        }
    }
    assert forall|k: int| 0 <= k < f.len() - 9 implies f.subrange(9, f.len() as int)[k] != slash() by {
        assert(f.subrange(9, f.len() as int)[k] == f[k + 9]);
    }
}

/// Flattening changes only slashes: from `start` on each `/` (47) becomes
/// `_` (95); every other byte, and every byte before `start`, stays as it
/// is; the length is kept.
pub proof fn law_flatten_changes_only_slashes(s: Seq<u8>, start: int)
    ensures
        flatten_from(s, start).len() == s.len(),
        forall|i: int|
            0 <= i < s.len() && (i < start || s[i] != 47u8) ==> #[trigger] flatten_from(s, start)[i] == s[i],
        forall|i: int|
            0 <= i < s.len() && start <= i && s[i] == 47u8 ==> #[trigger] flatten_from(s, start)[i] == 95u8,
{
}

/// A shared-memory name is rewritten exactly when it is 1 to 255 bytes long
/// and some byte after the first is `/`; a path exactly when it begins with
/// the nine bytes `/dev/shm/`, is at most 263 bytes long, and some byte after
/// those nine is `/`.
pub proof fn law_when_rewritten(name: Seq<u8>, path: Seq<u8>)
    ensures
        shm_name_is_rewritten(name) <==> (1 <= name.len() <= 255 && exists|i: int|
            1 <= i < name.len() && #[trigger] name[i] == 47u8),
        dev_shm_path_is_rewritten(path) <==> ({
            &&& 9 <= path.len() <= 263
            &&& path[0] == 47u8 && path[1] == 100u8 && path[2] == 101u8 && path[3] == 118u8
            &&& path[4] == 47u8 && path[5] == 115u8 && path[6] == 104u8 && path[7] == 109u8
            &&& path[8] == 47u8
            &&& exists|i: int| 9 <= i < path.len() && #[trigger] path[i] == 47u8
        }),
        spec_is_dev_shm_path(path) <==> ({
            &&& path.len() > 9
            &&& path[0] == 47u8 && path[1] == 100u8 && path[2] == 101u8 && path[3] == 118u8
            &&& path[4] == 47u8 && path[5] == 115u8 && path[6] == 104u8 && path[7] == 109u8
            &&& path[8] == 47u8
        }),
{
    if 1 <= name.len() {
        let tail = name.subrange(1, name.len() as int);
        if tail.contains(47u8) {
            let k = choose|k: int| 0 <= k < tail.len() && tail[k] == 47u8;
            assert(name[k + 1] == 47u8);
        }
        if exists|i: int| 1 <= i < name.len() && #[trigger] name[i] == 47u8 {
            let i = choose|i: int| 1 <= i < name.len() && #[trigger] name[i] == 47u8;
            assert(tail[i - 1] == 47u8);
        }
    }
    if path.len() >= 9 {
        let tail = path.subrange(9, path.len() as int);
        if tail.contains(47u8) {
            let k = choose|k: int| 0 <= k < tail.len() && tail[k] == 47u8;
            assert(path[k + 9] == 47u8);
        }
        if exists|i: int| 9 <= i < path.len() && #[trigger] path[i] == 47u8 {
            let i = choose|i: int| 9 <= i < path.len() && #[trigger] path[i] == 47u8;
            assert(tail[i - 9] == 47u8);
        }
        let head = path.subrange(0, 9);
        if head == dev_shm_prefix() {
            assert(head[0] == 47u8 && head[1] == 100u8 && head[2] == 101u8 && head[3] == 118u8);
            assert(head[4] == 47u8 && head[5] == 115u8 && head[6] == 104u8 && head[7] == 109u8);
            assert(head[8] == 47u8);
        }
        if path[0] == 47u8 && path[1] == 100u8 && path[2] == 101u8 && path[3] == 118u8 && path[4] == 47u8
            && path[5] == 115u8 && path[6] == 104u8 && path[7] == 109u8 && path[8] == 47u8 {
            assert(head =~= dev_shm_prefix());
        }
    }
}

/// The Linux numbers the hooks rely on: `O_CREAT` is octal 100, the
/// `O_TMPFILE` bit octal 20000000, `O_DIRECTORY` octal 200000; `ENOSYS` is
/// 38, `EFAULT` 14, `EEXIST` 17; names of up to 255 bytes are rewritten and
/// the prefix is the nine bytes `/dev/shm/`.
pub proof fn law_linux_numbers()
    ensures
        O_CREAT == 64,
        O_TMPFILE_BIT == 4194304,
        O_DIRECTORY == 65536,
        ENOSYS == 38,
        EFAULT == 14,
        EEXIST == 17,
        SHM_NAME_MAX == 255,
        SHM_NAME_BUF_LEN == SHM_NAME_MAX + 1,
        DEV_SHM_PATH_BUF_LEN == DEV_SHM_PREFIX_LEN + SHM_NAME_MAX + 1,
        DEV_SHM_PREFIX_LEN == 9,
        DEV_SHM_PREFIX@ == seq![47u8, 100, 101, 118, 47, 115, 104, 109, 47],
{
    assert(DEV_SHM_PREFIX@ =~= seq![47u8, 100, 101, 118, 47, 115, 104, 109, 47]);
}

/// `open` reads its mode argument exactly when the flags hold the create
/// bit (octal 100) or the whole temporary-file bit (octal 20000000); flags
/// with neither, such as read-only or directory-only opens, pass no mode.
pub proof fn law_open_mode_bits(flags: i32)
    ensures
        ((flags & O_CREAT) != 0 || (flags & O_TMPFILE_BIT) == O_TMPFILE_BIT) <==> ((flags & 64i32) == 64i32
            || (flags & 4194304i32) == 4194304i32),
{
    assert(((flags & 64i32) != 0) <==> ((flags & 64i32) == 64i32)) by (bit_vector);
}

} // verus!

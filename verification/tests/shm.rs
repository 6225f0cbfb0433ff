use lib::shm::{
    is_dev_shm_path, open_needs_mode, sanitize_dev_shm_path, sanitize_on_stack, DEV_SHM_PATH_BUF_LEN,
    DEV_SHM_PREFIX, DEV_SHM_PREFIX_LEN, O_CREAT, O_DIRECTORY, O_TMPFILE_BIT, SHM_NAME_BUF_LEN,
    SHM_NAME_MAX,
};

/// The NUL-terminated string at the front of `buf`.
fn c_string_at(buf: &[u8]) -> Vec<u8> {
    let end = buf.iter().position(|&b| b == 0).unwrap();
    buf[..end].to_vec()
}

fn sanitize(input: &[u8]) -> Option<Vec<u8>> {
    let mut buf = [0u8; SHM_NAME_BUF_LEN];
    if sanitize_on_stack(input, &mut buf) {
        Some(c_string_at(&buf))
    } else {
        None
    }
}

fn sanitize_path(input: &[u8]) -> Option<Vec<u8>> {
    let mut buf = [0u8; DEV_SHM_PATH_BUF_LEN];
    if sanitize_dev_shm_path(input, &mut buf) {
        Some(c_string_at(&buf))
    } else {
        None
    }
}

#[test]
fn no_embedded_slash() {
    assert_eq!(sanitize(b"/simple"), None);
}

#[test]
fn embedded_slash_replaced() {
    assert_eq!(sanitize(b"/sec/tss"), Some(b"/sec_tss".to_vec()));
}

#[test]
fn multiple_slashes_replaced() {
    assert_eq!(sanitize(b"/a/b/c"), Some(b"/a_b_c".to_vec()));
}

#[test]
fn leading_slash_preserved() {
    let result = sanitize(b"/a/b/c").unwrap();
    assert_eq!(result[0], b'/');
}

#[test]
fn no_leading_slash_no_embedded_slash() {
    assert_eq!(sanitize(b"noslash"), None);
}

#[test]
fn single_slash() {
    assert_eq!(sanitize(b"/"), None);
}

#[test]
fn empty_name() {
    assert_eq!(sanitize(b""), None);
}

#[test]
fn exactly_max_length() {
    let mut name = vec![b'/'];
    name.extend(std::iter::repeat(b'a').take(SHM_NAME_MAX - 2));
    name.push(b'/');
    assert_eq!(name.len(), SHM_NAME_MAX);

    let result = sanitize(&name).unwrap();
    assert_eq!(result.len(), SHM_NAME_MAX);
    assert_eq!(result[0], b'/');
    assert_eq!(*result.last().unwrap(), b'_');
}

#[test]
fn exceeds_max_length_passes_through() {
    let mut name = vec![b'/'];
    name.extend(std::iter::repeat(b'a').take(SHM_NAME_MAX));
    name.push(b'/');
    assert!(name.len() > SHM_NAME_MAX);

    assert_eq!(sanitize(&name), None);
}

#[test]
fn dev_shm_embedded_slash_rewritten() {
    assert_eq!(
        sanitize_path(b"/dev/shm/sec/tss_sdk_bus_1"),
        Some(b"/dev/shm/sec_tss_sdk_bus_1".to_vec())
    );
}

#[test]
fn dev_shm_multiple_slashes_rewritten() {
    assert_eq!(
        sanitize_path(b"/dev/shm/a/b/c"),
        Some(b"/dev/shm/a_b_c".to_vec())
    );
}

#[test]
fn dev_shm_no_embedded_slash_passes_through() {
    assert_eq!(sanitize_path(b"/dev/shm/simple"), None);
}

#[test]
fn non_dev_shm_path_passes_through() {
    assert_eq!(sanitize_path(b"/etc/passwd"), None);
    assert_eq!(sanitize_path(b"/home/neople/secsvr/zergsvr/zergsvr.pid"), None);
    assert_eq!(sanitize_path(b"/home/dxf/secsvr/zergsvr/zergsvr.pid"), None);
}

#[test]
fn dev_shm_empty_suffix_passes_through() {
    assert_eq!(sanitize_path(b"/dev/shm/"), None);
}

#[test]
fn dev_shm_prefix_only_passes_through() {
    assert_eq!(sanitize_path(b"/dev/shm"), None);
}

#[test]
fn dev_shm_exceeds_max_length_passes_through() {
    let mut path = DEV_SHM_PREFIX.to_vec();
    path.push(b'a');
    path.push(b'/');
    path.extend(std::iter::repeat(b'b').take(SHM_NAME_MAX));
    assert!(path.len() - DEV_SHM_PREFIX_LEN > SHM_NAME_MAX);

    assert_eq!(sanitize_path(&path), None);
}

#[test]
fn dev_shm_name_at_max_minus_one_rewritten() {
    let mut path = DEV_SHM_PREFIX.to_vec();
    path.push(b'a');
    path.push(b'/');
    path.extend(std::iter::repeat(b'b').take(SHM_NAME_MAX - 3));
    assert_eq!(path.len() - DEV_SHM_PREFIX_LEN, SHM_NAME_MAX - 1);

    let mut expected = DEV_SHM_PREFIX.to_vec();
    expected.push(b'a');
    expected.push(b'_');
    expected.extend(std::iter::repeat(b'b').take(SHM_NAME_MAX - 3));

    assert_eq!(sanitize_path(&path), Some(expected));
}

#[test]
fn dev_shm_name_at_max_passes_through() {
    let mut path = DEV_SHM_PREFIX.to_vec();
    path.push(b'a');
    path.push(b'/');
    path.extend(std::iter::repeat(b'b').take(SHM_NAME_MAX - 2));
    assert_eq!(path.len() - DEV_SHM_PREFIX_LEN, SHM_NAME_MAX);

    assert_eq!(sanitize_path(&path), None);
}

#[test]
fn dev_shm_multiple_slashes_at_max_minus_one_rewritten() {
    let mut name = vec![b'a', b'/', b'b', b'/', b'c', b'/'];
    name.extend(std::iter::repeat(b'd').take(SHM_NAME_MAX - 1 - name.len()));
    assert_eq!(name.len(), SHM_NAME_MAX - 1);

    let mut path = DEV_SHM_PREFIX.to_vec();
    path.extend_from_slice(&name);

    let mut expected = DEV_SHM_PREFIX.to_vec();
    expected.extend(name.iter().map(|&b| if b == b'/' { b'_' } else { b }));

    assert_eq!(sanitize_path(&path), Some(expected));
}

#[test]
fn open_rdonly_needs_no_mode() {
    assert!(!open_needs_mode(0));
}

#[test]
fn open_creat_needs_mode() {
    assert!(open_needs_mode(O_CREAT));
}

#[test]
fn open_wronly_creat_needs_mode() {
    assert!(open_needs_mode(1 | O_CREAT));
}

#[test]
fn open_tmpfile_needs_mode() {
    assert!(open_needs_mode(O_TMPFILE_BIT | O_DIRECTORY));
}

#[test]
fn open_directory_only_needs_no_mode() {
    assert!(!open_needs_mode(O_DIRECTORY));
}

#[test]
fn dev_shm_dir_is_dev_shm_path() {
    assert!(is_dev_shm_path(b"/dev/shm/sec"));
}

#[test]
fn dev_shm_file_is_dev_shm_path() {
    assert!(is_dev_shm_path(b"/dev/shm/sec/tss_sdk_bus_1"));
}

#[test]
fn non_dev_shm_is_not_dev_shm_path() {
    assert!(!is_dev_shm_path(b"/etc/passwd"));
}

#[test]
fn dev_shm_prefix_only_is_not_dev_shm_path() {
    assert!(!is_dev_shm_path(b"/dev/shm/"));
    assert!(!is_dev_shm_path(b"/dev/shm"));
}

#[test]
fn dev_shm_lookalike_is_not_dev_shm_path() {
    assert!(!is_dev_shm_path(b"/dev/shmfoo"));
}

#[test]
fn passing_through_leaves_buffer_alone() {
    let mut buf = [7u8; SHM_NAME_BUF_LEN];
    assert!(!sanitize_on_stack(b"/plain", &mut buf));
    assert!(buf.iter().all(|&b| b == 7));

    let mut pbuf = [7u8; DEV_SHM_PATH_BUF_LEN];
    assert!(!sanitize_dev_shm_path(b"/tmp/a/b", &mut pbuf));
    assert!(pbuf.iter().all(|&b| b == 7));
}

#[test]
fn rewriting_keeps_rest_of_buffer() {
    let mut buf = [7u8; SHM_NAME_BUF_LEN];
    assert!(sanitize_on_stack(b"/x/y", &mut buf));
    assert_eq!(&buf[..5], b"/x_y\0");
    assert!(buf[5..].iter().all(|&b| b == 7));
}

#[test]
fn tmpfile_bit_alone_needs_mode() {
    assert!(open_needs_mode(O_TMPFILE_BIT));
    assert!(open_needs_mode(O_TMPFILE_BIT | 2));
    assert!(!open_needs_mode(2 | O_DIRECTORY | 0o4000));
}

#[test]
fn shm_name_and_dev_shm_path_flatten_alike() {
    // shm_open("/a/b") and stat("/dev/shm/a/b") reach /dev/shm/a_b.
    let name = sanitize(b"/a/b").unwrap();
    let path = sanitize_path(b"/dev/shm/a/b").unwrap();
    assert_eq!(name, b"/a_b".to_vec());
    assert_eq!(path, b"/dev/shm/a_b".to_vec());
    let mut joined = b"/dev/shm".to_vec();
    joined.extend_from_slice(&name);
    assert_eq!(joined, path);
}

#[test]
fn rewritten_names_are_not_rewritten_again() {
    let once = sanitize(b"/a/b/c").unwrap();
    assert_eq!(sanitize(&once), None);
    let once = sanitize_path(b"/dev/shm/a/b/c").unwrap();
    assert_eq!(sanitize_path(&once), None);
    assert!(is_dev_shm_path(&once));
}

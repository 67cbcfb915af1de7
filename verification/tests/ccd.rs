use std::cell::Cell;

use windisplaymanager::ccd::{
    query_with_retry, wide_to_string, CcdError, Luid, ModeInfo, PathInfo, PathSourceInfo, PathTargetInfo, QueryReply, Rational,
    ERROR_INSUFFICIENT_BUFFER, QUERY_MAX_ATTEMPTS,
};

const ERROR_ACCESS_DENIED: u32 = 5;
const ERROR_INVALID_PARAMETER: u32 = 87;

fn blank_path() -> PathInfo {
    let adapter = Luid { low: 0, high: 0 };
    PathInfo {
        source: PathSourceInfo { adapter_id: adapter, id: 0, mode_info_idx: 0, status_flags: 0 },
        target: PathTargetInfo {
            adapter_id: adapter,
            id: 0,
            mode_info_idx: 0,
            output_technology: 0,
            rotation: 0,
            scaling: 0,
            refresh_rate: Rational { num: 0, den: 0 },
            scan_line_ordering: 0,
            target_available: 0,
            status_flags: 0,
        },
        flags: 0,
    }
}

fn blank_mode() -> ModeInfo {
    ModeInfo { info_type: 0, id: 0, adapter_id: Luid { low: 0, high: 0 }, payload: Vec::new() }
}

#[test]
fn query_retries_with_fresh_sizes_counts_and_buffers() {
    let size_calls = Cell::new(0);
    let query_calls = Cell::new(0);
    let (paths, modes) = query_with_retry(
        blank_path(),
        blank_mode(),
        || {
            assert_eq!(size_calls.get(), query_calls.get());
            size_calls.set(size_calls.get() + 1);
            let (num_paths, num_modes) = match size_calls.get() {
                1 => (1, 2),
                2 => (3, 4),
                _ => panic!("unexpected sizing retry"),
            };
            (0, num_paths, num_modes)
        },
        |mut paths: Vec<PathInfo>, mut modes: Vec<ModeInfo>| {
            query_calls.set(query_calls.get() + 1);
            assert_eq!(size_calls.get(), query_calls.get());
            assert!(paths.iter().all(|path| path.flags == 0));
            assert!(modes.iter().all(|mode| mode.id == 0));
            match query_calls.get() {
                1 => {
                    assert_eq!((paths.len(), modes.len()), (1, 2));
                    paths[0].flags = 99;
                    modes[0].id = 99;
                    QueryReply { status: ERROR_INSUFFICIENT_BUFFER, num_paths: 99, paths, num_modes: 99, modes }
                }
                2 => {
                    assert_eq!((paths.len(), modes.len()), (3, 4));
                    paths[0].flags = 7;
                    modes[0].id = 8;
                    QueryReply { status: 0, num_paths: 1, paths, num_modes: 1, modes }
                }
                _ => panic!("unexpected query retry"),
            }
        },
    )
    .unwrap();

    assert_eq!((size_calls.get(), query_calls.get()), (2, 2));
    assert_eq!((paths.len(), modes.len()), (1, 1));
    assert_eq!(paths[0].flags, 7);
    assert_eq!(modes[0].id, 8);
}

#[test]
fn query_retries_are_bounded() {
    let mut size_calls = 0;
    let query_calls = Cell::new(0);
    let result = query_with_retry(
        blank_path(),
        blank_mode(),
        || {
            size_calls += 1;
            (0, 1, 1)
        },
        |paths: Vec<PathInfo>, modes: Vec<ModeInfo>| {
            query_calls.set(query_calls.get() + 1);
            assert_eq!((paths.len(), modes.len()), (1, 1));
            QueryReply { status: ERROR_INSUFFICIENT_BUFFER, num_paths: 99, paths, num_modes: 99, modes }
        },
    );

    let error = result.err().expect("query should exhaust its retries");
    assert!(matches!(error, CcdError::QueryRetryExhausted { attempts: 3 }));
    assert_eq!((size_calls, query_calls.get()), (3, 3));
    assert!(error.message().contains("insufficient buffers after 3 attempts"));
}

#[test]
fn query_sizing_errors_are_preserved_without_retry() {
    for code in [ERROR_INSUFFICIENT_BUFFER, ERROR_ACCESS_DENIED] {
        let mut size_calls = 0;
        let result = query_with_retry(
            blank_path(),
            blank_mode(),
            || {
                size_calls += 1;
                (code, 0, 0)
            },
            |_: Vec<PathInfo>, _: Vec<ModeInfo>| -> QueryReply<PathInfo, ModeInfo> {
                panic!("query must not run after a sizing error")
            },
        );

        assert!(matches!(result, Err(CcdError::BufferSizes(error)) if error == code));
        assert_eq!(size_calls, 1);
    }
}

#[test]
fn query_other_errors_are_preserved_without_retry() {
    for code in [ERROR_ACCESS_DENIED, ERROR_INVALID_PARAMETER] {
        let mut size_calls = 0;
        let mut query_calls = 0;
        let result = query_with_retry(
            blank_path(),
            blank_mode(),
            || {
                size_calls += 1;
                (0, 1, 1)
            },
            |paths: Vec<PathInfo>, modes: Vec<ModeInfo>| {
                query_calls += 1;
                QueryReply { status: code, num_paths: 1, paths, num_modes: 1, modes }
            },
        );

        assert!(matches!(result, Err(CcdError::Query(error)) if error == code));
        assert_eq!((size_calls, query_calls), (1, 1));
    }
}

#[test]
fn query_truncates_buffers_to_returned_counts() {
    for (returned_paths, returned_modes) in [(2u32, 1u32), (0, 0)] {
        let mut query_calls = 0;
        let (paths, modes) = query_with_retry(
            blank_path(),
            blank_mode(),
            || (0, 3, 4),
            |paths: Vec<PathInfo>, modes: Vec<ModeInfo>| {
                query_calls += 1;
                assert_eq!((paths.len(), modes.len()), (3, 4));
                QueryReply { status: 0, num_paths: returned_paths, paths, num_modes: returned_modes, modes }
            },
        )
        .unwrap();

        assert_eq!(query_calls, 1);
        assert_eq!(paths.len(), returned_paths as usize);
        assert_eq!(modes.len(), returned_modes as usize);
    }
}

#[test]
fn query_keeps_buffers_when_counts_exceed_them() {
    let (paths, modes) = query_with_retry(
        blank_path(),
        blank_mode(),
        || (0, 2, 1),
        |paths: Vec<PathInfo>, modes: Vec<ModeInfo>| QueryReply { status: 0, num_paths: 9, paths, num_modes: 9, modes },
    )
    .unwrap();
    assert_eq!((paths.len(), modes.len()), (2, 1));
    assert_eq!(QUERY_MAX_ATTEMPTS, 3);
}

#[test]
fn wide_names_decode_pairs_and_replace_lone_surrogates() {
    let wide = [0x41u16, 0xD83D, 0xDE00, 0xDC00, 0xD800, 0x42, 0, 0x43];
    assert_eq!(wide_to_string(&wide), "A\u{1F600}\u{FFFD}\u{FFFD}B");
}

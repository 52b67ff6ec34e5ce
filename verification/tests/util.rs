use cephlens::json::parse_json;
use cephlens::util::{
    batches, clamp_bottom_scroll, clamp_top_scroll, host_batches, ptr_f64, ptr_i64, ptr_str,
    ptr_u64, shell_quote, short, MAX_PARALLEL_HOSTS,
};

#[test]
fn shell_quote_handles_single_quotes() {
    assert_eq!(shell_quote("echo hello"), "'echo hello'");
    assert_eq!(shell_quote("printf 'x'"), "'printf '\\''x'\\'''");
}

#[test]
fn scroll_clamps_to_available_rows() {
    assert_eq!(clamp_top_scroll(99, 10, 4), 6);
    assert_eq!(clamp_top_scroll(3, 2, 4), 0);
    assert_eq!(clamp_bottom_scroll(99, 10, 4), 6);
    assert_eq!(clamp_bottom_scroll(3, 0, 4), 0);
}

#[test]
fn clamped_positions_stay() {
    for total in 0..12usize {
        for visible in 0..12usize {
            for scroll in 0..15usize {
                let clamped = clamp_top_scroll(scroll, total, visible);
                assert_eq!(clamped, scroll.min(total.saturating_sub(visible.max(1))));
                assert_eq!(clamp_top_scroll(clamped, total, visible), clamped);
                assert_eq!(clamp_bottom_scroll(scroll, total, visible), clamped);
            }
        }
    }
    assert_eq!(clamp_top_scroll(usize::MAX, usize::MAX, 0), usize::MAX - 1);
}

#[test]
fn batches_follow_the_chunks_of_a_slice() {
    for count in 0..30usize {
        for limit in 0..8usize {
            let items = (0..count).collect::<Vec<_>>();
            let chunks = items
                .chunks(limit.max(1))
                .map(|chunk| (chunk[0], chunk[0] + chunk.len()))
                .collect::<Vec<_>>();
            assert_eq!(batches(count, limit), chunks);
        }
    }
    assert_eq!(batches(usize::MAX, usize::MAX), vec![(0, usize::MAX)]);
    assert_eq!(batches(10, MAX_PARALLEL_HOSTS), vec![(0, 8), (8, 10)]);
}

#[test]
fn short_counts_characters() {
    assert_eq!(short("åäö", 2), "åä");
    assert_eq!(short("ab", 5), "ab");
    assert_eq!(short("ab", 0), "");
}

#[test]
fn pointers_fall_back_to_nothing() {
    let value = parse_json(r#"{"a":{"b":[1,-2,"t",2.5]},"m":18446744073709551615}"#).unwrap();
    assert_eq!(ptr_u64(&value, "/a/b/0"), 1);
    assert_eq!(ptr_u64(&value, "/a/b/1"), 0);
    assert_eq!(ptr_u64(&value, "/m"), u64::MAX);
    assert_eq!(ptr_i64(&value, "/a/b/1"), -2);
    assert_eq!(ptr_i64(&value, "/m"), 0);
    assert_eq!(ptr_str(&value, "/a/b/2"), "t");
    assert_eq!(ptr_str(&value, "/a/b/0"), "");
    assert_eq!(f64::from_bits(ptr_f64(&value, "/a/b/3").bits), 2.5);
    assert_eq!(f64::from_bits(ptr_f64(&value, "/a/b/1").bits), -2.0);
    assert_eq!(f64::from_bits(ptr_f64(&value, "/a").bits), 0.0);
}

#[test]
fn host_batches_ask_no_host_twice_at_once() {
    assert_eq!(host_batches(&[], 8), vec![]);
    assert_eq!(host_batches(&["a", "b", "c"], 8), vec![(0, 3)]);
    assert_eq!(host_batches(&["a", "b", "c"], 2), vec![(0, 2), (2, 3)]);
    assert_eq!(host_batches(&["a", "a", "a"], 8), vec![(0, 1), (1, 2), (2, 3)]);
    assert_eq!(host_batches(&["a", "b", "a", "c", "b"], 8), vec![(0, 2), (2, 5)]);
    assert_eq!(host_batches(&["a", "b"], 0), vec![(0, 1), (1, 2)]);
    let names = (0..20).map(|n| format!("node-{}", n % 11)).collect::<Vec<_>>();
    let hosts = names.iter().map(String::as_str).collect::<Vec<_>>();
    assert_eq!(host_batches(&hosts, MAX_PARALLEL_HOSTS), vec![(0, 8), (8, 16), (16, 20)]);
}

use rpc_tester::hint::parse_max_results_error;
use rpc_tester::paginate::{
    extract_block_range, plan_retry, BlockTag, Pagination, Query, QueryRange,
};

#[test]
fn test_parse_max_results_error_message() {
    let error_msg = "query exceeds max results 20000, retry with the range 24383075-24383096";
    let result = parse_max_results_error(&error_msg);
    assert_eq!(result, Some((24383075, 24383096)));
}

#[test]
fn test_parse_non_matching_error() {
    let error_msg = "some other error";
    let result = parse_max_results_error(&error_msg);
    assert_eq!(result, None);
}

#[test]
fn test_parse_with_trailing_text() {
    let error_msg = "query exceeds max results 20000, retry with the range 100-200, extra info";
    let result = parse_max_results_error(&error_msg);
    assert_eq!(result, Some((100, 200)));
}

#[test]
fn test_extract_block_range() {
    let filter = QueryRange::new().from_block(BlockTag::Number(100)).to_block(BlockTag::Number(200));
    assert_eq!(extract_block_range(&filter), Some((100, 200)));
}

#[test]
fn test_extract_block_range_no_range() {
    let filter = QueryRange::new();
    assert_eq!(extract_block_range(&filter), None);
}

#[test]
fn extract_block_range_with_tag_bound() {
    let filter = QueryRange::new().from_block(BlockTag::Number(100)).to_block(BlockTag::Latest);
    assert_eq!(extract_block_range(&filter), None);
}

#[test]
fn parse_without_range_marker() {
    assert_eq!(parse_max_results_error("query exceeds max results 20000, retry with 1-2"), None);
}

#[test]
fn parse_range_marker_before_max_results() {
    assert_eq!(parse_max_results_error("range 1-2: max results exceeded"), None);
}

#[test]
fn parse_malformed_numbers() {
    assert_eq!(parse_max_results_error("max results, range 100"), None);
    assert_eq!(parse_max_results_error("max results, range -200"), None);
    assert_eq!(parse_max_results_error("max results, range 100-"), None);
    assert_eq!(parse_max_results_error("max results, range 100--200"), None);
    assert_eq!(parse_max_results_error("max results, range 100_200"), None);
    assert_eq!(parse_max_results_error("max results, range 1-99999999999999999999"), None);
}

#[test]
fn parse_edge_values() {
    assert_eq!(parse_max_results_error("max results, range 7-7"), Some((7, 7)));
    assert_eq!(parse_max_results_error("max results, range 1-2-3"), Some((1, 2)));
    assert_eq!(parse_max_results_error("max results, range 007-0010."), Some((7, 10)));
    assert_eq!(
        parse_max_results_error("max results, range 0-18446744073709551615"),
        Some((0, u64::MAX))
    );
}

#[test]
fn plan_uses_suggested_chunk_over_query_range() {
    assert_eq!(plan_retry(Some((0, 99)), 0, Some((0, 9))), Some((0, 99, 10)));
    assert_eq!(plan_retry(None, 0, Some((5, 9))), Some((5, 9, 5)));
    assert_eq!(plan_retry(Some((0, 9)), 0, Some((0, 49))), Some((0, 9, 50)));
}

#[test]
fn plan_fails_closed() {
    assert_eq!(plan_retry(Some((0, 99)), 0, None), None);
    assert_eq!(plan_retry(Some((0, 99)), 0, Some((9, 0))), None);
    assert_eq!(plan_retry(Some((0, 99)), 0, Some((0, u64::MAX))), None);
    assert_eq!(plan_retry(Some((99, 0)), 0, Some((0, 9))), None);
}

#[test]
fn plan_no_progress_guard() {
    assert_eq!(plan_retry(Some((0, 9)), 1, Some((0, 9))), None);
    assert_eq!(plan_retry(Some((0, 9)), 1, Some((0, 19))), None);
    assert_eq!(plan_retry(Some((0, 9)), 1, Some((0, 8))), Some((0, 9, 9)));
}

/// A provider that refuses queries of more than `limit` blocks and suggests the first
/// `suggest` blocks of the query; its logs are the block numbers of the range.
fn provider(q: &Query, limit: u64, suggest: u64) -> Result<Vec<u64>, String> {
    let (f, t) = q.range.unwrap_or((1000, 1099));
    if t - f + 1 > limit {
        Err(format!(
            "query exceeds max results 20000, retry with the range {}-{}",
            f,
            f + suggest - 1
        ))
    } else {
        Ok((f..=t).collect())
    }
}

fn fetch(
    range: Option<(u64, u64)>,
    answer: &dyn Fn(&Query) -> Result<Vec<u64>, String>,
) -> (Result<Vec<u64>, String>, Vec<Query>) {
    let mut p: Pagination<u64> = Pagination::new(range);
    let mut issued = Vec::new();
    while let Some(q) = p.next_query() {
        issued.push(q);
        match answer(&q) {
            Ok(logs) => p.on_logs(logs),
            Err(m) => {
                if !p.on_error(&m) {
                    return (Err(m), issued);
                }
            }
        }
    }
    assert!(p.is_done());
    (Ok(p.into_logs()), issued)
}

#[test]
fn fetch_succeeds_first_time() {
    let (r, issued) = fetch(Some((10, 19)), &|q| provider(q, 100, 10));
    assert_eq!(r, Ok((10..=19).collect::<Vec<u64>>()));
    assert_eq!(issued, vec![Query { range: Some((10, 19)), depth: 0 }]);
}

#[test]
fn fetch_paginates_in_window_order() {
    let (r, issued) = fetch(Some((0, 24)), &|q| provider(q, 10, 10));
    assert_eq!(r, Ok((0..=24).collect::<Vec<u64>>()));
    let ranges: Vec<Option<(u64, u64)>> = issued.iter().map(|q| q.range).collect();
    assert_eq!(
        ranges,
        vec![Some((0, 24)), Some((0, 9)), Some((10, 19)), Some((20, 24))]
    );
    assert!(issued[1..].iter().all(|q| q.depth == 1));
}

#[test]
fn fetch_chunk_size_one_scans_linearly() {
    let (r, issued) = fetch(Some((5, 8)), &|q| provider(q, 1, 1));
    assert_eq!(r, Ok(vec![5, 6, 7, 8]));
    assert_eq!(issued.len(), 5);
}

#[test]
fn fetch_nested_refusals_keep_order() {
    // Windows of 4 are refused again and split in windows of 2.
    let answer = |q: &Query| {
        let (f, t) = q.range.unwrap();
        let n = t - f + 1;
        if n > 2 {
            let s = if q.depth == 0 { 4 } else { 2 };
            Err(format!("max results exceeded, range {}-{}", f, f + s - 1))
        } else {
            Ok((f..=t).collect())
        }
    };
    let (r, _) = fetch(Some((0, 9)), &answer);
    assert_eq!(r, Ok((0..=9).collect::<Vec<u64>>()));
}

#[test]
fn fetch_without_concrete_range_uses_suggestion() {
    let answer = |q: &Query| match q.range {
        None => Err("query exceeds max results 20000, retry with the range 50-54".to_string()),
        Some((f, t)) => Ok((f..=t).collect()),
    };
    let (r, issued) = fetch(None, &answer);
    assert_eq!(r, Ok(vec![50, 51, 52, 53, 54]));
    assert_eq!(issued[1], Query { range: Some((50, 54)), depth: 1 });
}

#[test]
fn fetch_wide_suggestion_completes_in_one_window() {
    let answer = |q: &Query| {
        let (f, t) = q.range.unwrap();
        if q.depth == 0 {
            Err(format!("max results, range {}-{}", f, f + 1000))
        } else {
            Ok((f..=t).collect())
        }
    };
    let (r, issued) = fetch(Some((0, 9)), &answer);
    assert_eq!(r, Ok((0..=9).collect::<Vec<u64>>()));
    assert_eq!(issued.len(), 2);
}

#[test]
fn fetch_no_progress_fails_with_provider_error() {
    // The provider suggests a chunk as large as what was asked for.
    let answer = |q: &Query| {
        let (f, t) = q.range.unwrap();
        Err(format!("max results, range {}-{}", f, t))
    };
    let (r, issued) = fetch(Some((0, 9)), &answer);
    assert_eq!(r, Err("max results, range 0-9".to_string()));
    assert_eq!(issued.len(), 2);
}

#[test]
fn fetch_unparseable_error_is_final() {
    let (r, issued) = fetch(Some((0, 9)), &|_q| Err("connection reset".to_string()));
    assert_eq!(r, Err("connection reset".to_string()));
    assert_eq!(issued.len(), 1);
}

#[test]
fn fetch_sub_window_error_fails_whole_fetch() {
    let answer = |q: &Query| {
        let (f, t) = q.range.unwrap();
        if q.depth == 0 {
            Err(format!("max results, range {}-{}", f, f + 4))
        } else if f == 5 {
            Err("timeout".to_string())
        } else {
            Ok((f..=t).collect())
        }
    };
    let (r, _) = fetch(Some((0, 14)), &answer);
    assert_eq!(r, Err("timeout".to_string()));
}

#[test]
fn fetch_depth_is_bounded() {
    // Every query is refused with a suggestion of half its size.
    let answer = |q: &Query| {
        let (f, t) = q.range.unwrap();
        let half = ((t - f + 1) / 2).max(1);
        Err(format!("max results, range {}-{}", f, f + half - 1))
    };
    let (r, issued) = fetch(Some((0, (1u64 << 20) - 1)), &answer);
    assert!(r.is_err());
    assert!(issued.iter().all(|q| q.depth <= 11));
    assert_eq!(issued.last().unwrap().depth, 11);
}

//! Rough measurements of the operations that matter, on a real database
//! file, and the guide to them.

use std::time::Instant;

use shortener::database::{init_db, AppState};
use shortener::handler::{create_short_url, delete_short_url, list_urls, redirect_url, Reply};
use shortener::model::{CreateRequest, DeleteParams, ListParams};
use tempfile::NamedTempFile;

const DOMAIN: &str = "http://localhost:8080";

fn fresh_state() -> (AppState, NamedTempFile) {
    let temp_db = NamedTempFile::new().unwrap();
    let db = init_db(temp_db.path().to_str().unwrap()).unwrap();
    (AppState::new(db), temp_db)
}

/// Runs `f` `iterations` times and prints how long it took.
fn benchmark<F>(name: &str, iterations: usize, mut f: F)
where
    F: FnMut(),
{
    let start = Instant::now();

    for _ in 0..iterations {
        f();
    }

    let duration = start.elapsed();
    let avg_us = duration.as_micros() / iterations.max(1) as u128;
    let ops_per_sec = (iterations as u128 * 1_000_000) / duration.as_micros().max(1);

    println!("  {} ({} iterations)", name, iterations);
    println!("    Total time: {:?}", duration);
    println!("    Avg time: {}us", avg_us);
    println!("    Throughput: {} ops/sec\n", ops_per_sec);
}

fn create(state: &mut AppState, url: &str, ref_id: Option<&str>) -> Reply {
    let req = CreateRequest { url: url.to_string(), ref_id: ref_id.map(|r| r.to_string()), custom_id: None };
    create_short_url(state, DOMAIN, req)
}

fn page_len(reply: Reply) -> usize {
    match reply {
        Reply::Page { total_fetched, .. } => total_fetched,
        other => panic!("unexpected reply: {:?}", other),
    }
}

#[test]
fn bench_create_urls() {
    println!("\n=== Benchmark: Create URLs ===\n");
    let (mut state, _temp_db) = fresh_state();
    let iterations = 100;

    let mut made = 0;
    benchmark("Create with ref_id", iterations, || {
        if create(&mut state, "https://example.com/bench", Some("bench_user")).status() == 201 {
            made += 1;
        }
    });
    benchmark("Create without ref_id", iterations, || {
        if create(&mut state, "https://example.com/public", None).status() == 201 {
            made += 1;
        }
    });

    let all = ListParams { ref_id: None, page: Some(1), limit: Some(100) };
    assert!(page_len(list_urls(&state, all)) == 100);
    assert!(made >= 2 * iterations - 1);
}

#[test]
fn bench_list_urls() {
    println!("\n=== Benchmark: List URLs ===\n");
    let (mut state, _temp_db) = fresh_state();
    let prepared = 120;
    println!("  Preparing: Creating {} URLs...", prepared);
    for i in 0..prepared {
        create(&mut state, &format!("https://example.com/list{}", i), Some("list_bench_user"));
    }
    println!("  Done!\n");

    let iterations = 100;
    let mut seen = 0;
    benchmark("List with ref_id (indexed)", iterations, || {
        let params = ListParams { ref_id: Some("list_bench_user".to_string()), page: Some(1), limit: Some(10) };
        seen += page_len(list_urls(&state, params));
    });
    assert_eq!(seen, 10 * iterations);

    let mut walked = 0;
    benchmark("List without ref_id (full scan)", iterations, || {
        let params = ListParams { ref_id: None, page: Some(1), limit: Some(10) };
        walked += page_len(list_urls(&state, params));
    });
    assert_eq!(walked, 10 * iterations);
}

#[test]
fn bench_database_scaling() {
    println!("\n=== Benchmark: Database Scaling ===\n");
    let (mut state, _temp_db) = fresh_state();
    let mut size = 0;
    for target in [25usize, 50, 100] {
        while size < target {
            create(&mut state, &format!("https://example.com/scale{}", size), Some("scale_user"));
            size += 1;
        }
        let last_page = (target + 9) / 10;
        benchmark(&format!("Last page of {} URLs", target), 20, || {
            let params = ListParams { ref_id: Some("scale_user".to_string()), page: Some(last_page), limit: Some(10) };
            let shown = page_len(list_urls(&state, params));
            assert!(shown >= 1 && shown <= 10);
        });
    }
}

#[test]
fn bench_concurrent_operations() {
    println!("\n=== Benchmark: Mixed Operations ===\n");
    let (mut state, _temp_db) = fresh_state();
    let rounds = 40;
    let start = Instant::now();
    let mut total_ops = 0;

    for i in 0..rounds {
        let id = format!("mixed{}", i);
        let req = CreateRequest {
            url: format!("https://example.com/mixed{}", i),
            ref_id: Some("mixed_user".to_string()),
            custom_id: Some(id.clone()),
        };
        assert_eq!(create_short_url(&mut state, DOMAIN, req).status(), 201);
        assert_eq!(redirect_url(&state, &id).status(), 307);
        let params = ListParams { ref_id: Some("mixed_user".to_string()), page: Some(1), limit: Some(100) };
        let listed = page_len(list_urls(&state, params));
        assert_eq!(listed, (i + 1) / 2 + 1);
        if i % 2 == 1 {
            let gone = delete_short_url(&mut state, &id, DeleteParams { ref_id: Some("mixed_user".to_string()) });
            assert_eq!(gone.status(), 200);
            total_ops += 1;
        }
        total_ops += 3;
    }

    let duration = start.elapsed();
    println!("  Total operations: {}", total_ops);
    println!("  Total time: {:?}", duration);
    println!("  Throughput: {} ops/sec\n", (total_ops as u128 * 1_000_000) / duration.as_micros().max(1));
}

#[test]
fn bench_summary() {
    println!("\n{}", "=".repeat(60));
    println!("Benchmark Test Suite");
    println!("{}", "=".repeat(60));
    println!("\nTo run benchmarks, use:");
    println!("  cargo test --release bench -- --ignored --nocapture");
    println!("\nAvailable benchmarks:");
    println!("  • bench_create_urls         - URL creation performance");
    println!("  • bench_list_urls           - Query performance with/without index");
    println!("  • bench_database_scaling    - Performance at different DB sizes");
    println!("  • bench_concurrent_operations - Concurrent access patterns");
    println!("\n{}\n", "=".repeat(60));
}

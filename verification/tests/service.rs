//! The service end to end: requests in, replies out, on a real database file.

use shortener::database::{init_db, AppState};
use shortener::handler::{create_short_url, delete_short_url, list_urls, redirect_url, Reply};
use shortener::model::{CreateRequest, DeleteParams, ListParams};
use tempfile::NamedTempFile;

const DOMAIN: &str = "http://localhost:8080";

fn setup_test_app() -> (AppState, NamedTempFile) {
    let temp_db = NamedTempFile::new().expect("Failed to create temp file");
    let db_path = temp_db.path().to_str().unwrap();
    let db = init_db(db_path).expect("Failed to initialize test database");
    (AppState::new(db), temp_db)
}

fn request(url: &str, ref_id: Option<&str>, custom_id: Option<&str>) -> CreateRequest {
    CreateRequest {
        url: url.to_string(),
        ref_id: ref_id.map(|r| r.to_string()),
        custom_id: custom_id.map(|c| c.to_string()),
    }
}

fn list_params(ref_id: Option<&str>, page: Option<usize>, limit: Option<usize>) -> ListParams {
    ListParams { ref_id: ref_id.map(|r| r.to_string()), page, limit }
}

fn delete_params(ref_id: Option<&str>) -> DeleteParams {
    DeleteParams { ref_id: ref_id.map(|r| r.to_string()) }
}

#[test]
fn test_create_short_url_success() {
    let (mut app, _temp_db) = setup_test_app();
    let payload = request("https://example.com/test", Some("test_user"), Some("test123"));

    let reply = create_short_url(&mut app, DOMAIN, payload);

    assert_eq!(reply.status(), 201);
    match reply {
        Reply::Created(body) => {
            assert_eq!(body.id, "test123");
            assert_eq!(body.original_url, "https://example.com/test");
            assert!(body.short_url.contains("test123"));
            assert_eq!(body.short_url, "http://localhost:8080/test123");
        }
        other => panic!("unexpected reply: {:?}", other),
    }
}

#[test]
fn test_create_short_url_without_ref_id() {
    let (mut app, _temp_db) = setup_test_app();
    let payload = request("https://example.com/public", None, None);

    let reply = create_short_url(&mut app, DOMAIN, payload);

    assert_eq!(reply.status(), 201);
    match reply {
        Reply::Created(body) => {
            assert_eq!(body.original_url, "https://example.com/public");
            assert!(body.id.len() == 6);
            assert!(body.id.chars().all(|c| c.is_ascii_alphanumeric()));
        }
        other => panic!("unexpected reply: {:?}", other),
    }
}

#[test]
fn test_create_short_url_duplicate_custom_id() {
    let (mut app, _temp_db) = setup_test_app();

    let first = create_short_url(&mut app, DOMAIN, request("https://example.com/first", None, Some("duplicate")));
    assert_eq!(first.status(), 201);

    let second = create_short_url(&mut app, DOMAIN, request("https://example.com/first", None, Some("duplicate")));
    assert_eq!(second.status(), 409);
    assert!(matches!(second, Reply::Conflict));
}

#[test]
fn test_redirect_url_success() {
    let (mut app, _temp_db) = setup_test_app();
    create_short_url(&mut app, DOMAIN, request("https://example.com/redirect-test", None, Some("redirect123")));

    let reply = redirect_url(&app, "redirect123");

    assert_eq!(reply.status(), 307);
    match reply {
        Reply::Redirect(location) => assert_eq!(location, "https://example.com/redirect-test"),
        other => panic!("unexpected reply: {:?}", other),
    }
}

#[test]
fn test_redirect_url_not_found() {
    let (app, _temp_db) = setup_test_app();

    let reply = redirect_url(&app, "nonexistent");

    assert_eq!(reply.status(), 404);
    assert!(matches!(reply, Reply::NotFound));
}

#[test]
fn test_list_urls_with_ref_id() {
    let (mut app, _temp_db) = setup_test_app();
    for i in 1..=3 {
        let reply = create_short_url(
            &mut app,
            DOMAIN,
            request(&format!("https://example.com/url{}", i), Some("list_test_user"), Some(&format!("list{}", i))),
        );
        assert_eq!(reply.status(), 201);
    }

    let reply = list_urls(&app, list_params(Some("list_test_user"), Some(1), Some(10)));

    assert_eq!(reply.status(), 200);
    match reply {
        Reply::Page { page, limit, total_fetched, data } => {
            assert_eq!(total_fetched, 3);
            assert_eq!(data.len(), 3);
            assert_eq!(page, 1);
            assert_eq!(limit, 10);
            let ids: Vec<&str> = data.iter().map(|r| r.id.as_str()).collect();
            assert_eq!(ids, vec!["list1", "list2", "list3"]);
        }
        other => panic!("unexpected reply: {:?}", other),
    }
}

#[test]
fn test_list_urls_without_ref_id() {
    let (mut app, _temp_db) = setup_test_app();
    for i in 1..=5 {
        let reply = create_short_url(&mut app, DOMAIN, request(&format!("https://example.com/all{}", i), None, None));
        assert_eq!(reply.status(), 201);
    }

    let reply = list_urls(&app, list_params(None, Some(1), Some(10)));

    assert_eq!(reply.status(), 200);
    match reply {
        Reply::Page { total_fetched, data, .. } => {
            assert_eq!(total_fetched, 5);
            assert_eq!(data.len(), 5);
            let mut ids: Vec<String> = data.iter().map(|r| r.id.clone()).collect();
            let listed = ids.clone();
            ids.sort();
            assert_eq!(listed, ids);
        }
        other => panic!("unexpected reply: {:?}", other),
    }
}

#[test]
fn test_list_urls_pagination() {
    let (mut app, _temp_db) = setup_test_app();
    for i in 1..=15 {
        let reply = create_short_url(
            &mut app,
            DOMAIN,
            request(&format!("https://example.com/page{}", i), Some("pagination_user"), None),
        );
        assert_eq!(reply.status(), 201);
    }

    match list_urls(&app, list_params(Some("pagination_user"), Some(1), Some(10))) {
        Reply::Page { page, total_fetched, data, .. } => {
            assert_eq!(total_fetched, 10);
            assert_eq!(data.len(), 10);
            assert_eq!(page, 1);
        }
        other => panic!("unexpected reply: {:?}", other),
    }

    match list_urls(&app, list_params(Some("pagination_user"), Some(2), Some(10))) {
        Reply::Page { page, total_fetched, data, .. } => {
            assert_eq!(total_fetched, 5);
            assert_eq!(data.len(), 5);
            assert_eq!(page, 2);
        }
        other => panic!("unexpected reply: {:?}", other),
    }

    match list_urls(&app, list_params(Some("pagination_user"), Some(3), Some(10))) {
        Reply::Page { page, total_fetched, data, .. } => {
            assert_eq!(total_fetched, 0);
            assert_eq!(data.len(), 0);
            assert_eq!(page, 3);
        }
        other => panic!("unexpected reply: {:?}", other),
    }
}

#[test]
fn test_delete_url_with_ref_id_success() {
    let (mut app, _temp_db) = setup_test_app();
    create_short_url(&mut app, DOMAIN, request("https://example.com/delete-test", Some("delete_user"), Some("delete123")));

    let reply = delete_short_url(&mut app, "delete123", delete_params(Some("delete_user")));

    assert_eq!(reply.status(), 200);
    match reply {
        Reply::Deleted(deleted_id) => assert_eq!(deleted_id, "delete123"),
        other => panic!("unexpected reply: {:?}", other),
    }
    assert!(matches!(redirect_url(&app, "delete123"), Reply::NotFound));
}

#[test]
fn test_delete_url_without_ref_id() {
    let (mut app, _temp_db) = setup_test_app();
    create_short_url(&mut app, DOMAIN, request("https://example.com/public-delete", None, Some("public123")));

    let reply = delete_short_url(&mut app, "public123", delete_params(None));

    assert_eq!(reply.status(), 200);
}

#[test]
fn test_delete_url_wrong_ref_id() {
    let (mut app, _temp_db) = setup_test_app();
    create_short_url(&mut app, DOMAIN, request("https://example.com/protected", Some("owner123"), Some("protected123")));

    let reply = delete_short_url(&mut app, "protected123", delete_params(Some("wrong_user")));

    assert_eq!(reply.status(), 403);
    assert!(matches!(reply, Reply::Forbidden));
    assert!(matches!(redirect_url(&app, "protected123"), Reply::Redirect(_)));
}

#[test]
fn test_delete_url_not_found() {
    let (mut app, _temp_db) = setup_test_app();

    let reply = delete_short_url(&mut app, "nonexistent", delete_params(None));

    assert_eq!(reply.status(), 404);
    assert!(matches!(reply, Reply::NotFound));
}

#[test]
fn empty_custom_id_counts_as_none() {
    let (mut app, _temp_db) = setup_test_app();

    match create_short_url(&mut app, DOMAIN, request("https://example.com/x", None, Some(""))) {
        Reply::Created(body) => {
            assert_eq!(body.id.len(), 6);
            assert_eq!(body.short_url, format!("{}/{}", DOMAIN, body.id));
        }
        other => panic!("unexpected reply: {:?}", other),
    }
}

#[test]
fn conflict_ignores_the_payload() {
    let (mut app, _temp_db) = setup_test_app();
    let first = create_short_url(&mut app, DOMAIN, request("https://example.com/a", Some("alice"), Some("same")));
    assert_eq!(first.status(), 201);

    let second = create_short_url(&mut app, DOMAIN, request("https://other.example/b", Some("bob"), Some("same")));

    assert!(matches!(second, Reply::Conflict));
    match redirect_url(&app, "same") {
        Reply::Redirect(location) => assert_eq!(location, "https://example.com/a"),
        other => panic!("unexpected reply: {:?}", other),
    }
}

#[test]
fn created_record_is_stamped_with_the_current_time() {
    let (mut app, _temp_db) = setup_test_app();
    let before = std::time::SystemTime::now().duration_since(std::time::UNIX_EPOCH).unwrap().as_micros() as i64;

    let reply = create_short_url(&mut app, DOMAIN, request("https://example.com/now", None, Some("now")));

    let after = std::time::SystemTime::now().duration_since(std::time::UNIX_EPOCH).unwrap().as_micros() as i64;
    match reply {
        Reply::Created(body) => {
            assert!(before <= body.created_at && body.created_at <= after);
        }
        other => panic!("unexpected reply: {:?}", other),
    }
}

#[test]
fn list_defaults_and_limits() {
    let (mut app, _temp_db) = setup_test_app();
    for i in 0..12 {
        create_short_url(&mut app, DOMAIN, request("https://example.com/d", Some("dora"), Some(&format!("d{:02}", i))));
    }

    match list_urls(&app, list_params(Some("dora"), None, None)) {
        Reply::Page { page, limit, total_fetched, data } => {
            assert_eq!((page, limit, total_fetched, data.len()), (1, 10, 10, 10));
        }
        other => panic!("unexpected reply: {:?}", other),
    }
    match list_urls(&app, list_params(Some("dora"), Some(0), Some(1000))) {
        Reply::Page { page, limit, total_fetched, data } => {
            assert_eq!((page, limit, total_fetched, data.len()), (1, 100, 12, 12));
        }
        other => panic!("unexpected reply: {:?}", other),
    }
    match list_urls(&app, list_params(Some("dora"), Some(2), Some(0))) {
        Reply::Page { page, limit, total_fetched, data } => {
            assert_eq!((page, limit, total_fetched, data.len()), (2, 0, 0, 0));
        }
        other => panic!("unexpected reply: {:?}", other),
    }
    match list_urls(&app, list_params(Some("dora"), Some(usize::MAX), Some(100))) {
        Reply::Page { data, .. } => assert!(data.is_empty()),
        other => panic!("unexpected reply: {:?}", other),
    }
    match list_urls(&app, list_params(Some("nobody"), None, None)) {
        Reply::Page { data, .. } => assert!(data.is_empty()),
        other => panic!("unexpected reply: {:?}", other),
    }
}

#[test]
fn a_failure_of_the_engine_is_status_500() {
    let file = NamedTempFile::new().unwrap();
    let app = AppState::new(redb::Database::create(file.path()).unwrap());

    let followed = redirect_url(&app, "any");
    assert_eq!(followed.status(), 500);
    assert!(matches!(followed, Reply::Failed(_)));
    let listed = list_urls(&app, list_params(None, None, None));
    assert_eq!(listed.status(), 500);
    assert!(matches!(listed, Reply::Failed(_)));
}

#[test]
fn status_codes_of_replies() {
    assert_eq!(Reply::Conflict.status(), 409);
    assert_eq!(Reply::NotFound.status(), 404);
    assert_eq!(Reply::Forbidden.status(), 403);
    assert_eq!(Reply::Redirect("https://example.com".to_string()).status(), 307);
    assert_eq!(Reply::Deleted("x".to_string()).status(), 200);
    assert_eq!(Reply::Page { page: 1, limit: 10, total_fetched: 0, data: Vec::new() }.status(), 200);
}

use dedup_pictures::entry::{FileEntry, FileSource};
use dedup_pictures::html::{
    generate_html_preview, is_all_resolved, needs_canonical_path, push_placeholder, Resolved, PAGE_FOOT, PAGE_HEAD, PAGE_TOP,
};
use dedup_pictures::report::compute_totals;
use dedup_pictures::server::{
    conclude, content_type, handle, route, Content, Outcome, Reply, Request, ReviewError, Route,
};
use std::path::PathBuf;

fn local(path: &str, ext: &str, size: u64, mtime: u64) -> FileEntry {
    FileEntry {
        display_path: path.to_string(),
        size,
        mtime,
        ext: ext.to_string(),
        source: FileSource::Local(PathBuf::from(path)),
    }
}

fn nas(path: &str, ext: &str) -> FileEntry {
    FileEntry {
        display_path: format!("shown {path}"),
        size: 2048,
        mtime: 7,
        ext: ext.to_string(),
        source: FileSource::Nas(path.to_string()),
    }
}

fn here(path: &str, canonical: Option<&str>) -> Resolved {
    Resolved::Local { path: path.to_string(), canonical: canonical.map(|c| c.to_string()) }
}

fn there(thumbnail: Option<&str>) -> Resolved {
    Resolved::Nas { thumbnail: thumbnail.map(|t| t.to_string()) }
}

fn card(class: &str, path: &str, size: u64, media: &str, badge: &str, shown: &str, shown_size: &str, mtime: u64) -> String {
    format!(
        r#"  <div class="card {}" data-path="{}" data-size="{}">{}
    <div class="badge">{}</div>
    <div class="info">
      <div class="path">{}</div>
      <div class="meta">{} &nbsp;&middot;&nbsp; <span class="ts" data-ts="{}"></span></div>
    </div>
  </div>
"#,
        class, path, size, media, badge, shown, shown_size, mtime
    )
}

fn section(at: usize, copies: usize, cards: &str) -> String {
    format!(
        r#"<div class="group">
<div class="group-title">Group <span>{}</span> &mdash; {} copies</div>
<div class="images">
{}</div></div>
"#,
        at, copies, cards
    )
}

fn page(groups: usize, sections: &str) -> String {
    format!("{PAGE_HEAD}{groups}{PAGE_TOP}{sections}{PAGE_FOOT}")
}

#[test]
fn page_without_groups() {
    let html = generate_html_preview(&Vec::new(), &Vec::new());
    assert_eq!(html, page(0, ""));
    assert!(html.starts_with("<!DOCTYPE html>\n<html lang=\"en\">\n"));
    assert!(html.contains("<div class=\"summary\">Found <b>0</b> groups of identical or similar photos</div>"));
    assert!(html.ends_with("</script>\n</body></html>\n"));
}

#[test]
fn local_files_are_shown_by_their_canonical_path() {
    let groups = vec![vec![local("p/a b.jpg", "jpg", 4096, 11), local("p/c.png", "png", 1024, 12)]];
    let resolved = vec![vec![here("p/a b.jpg", Some("/full/p/a b.jpg")), here("p/c.png", None)]];
    let first = card("keep", "p/a b.jpg", 4096, "<img src=\"file:///full/p/a%20b.jpg\" alt=\"\" loading=\"lazy\">", "KEEP", "p/a b.jpg", "4.00 KB", 11);
    let second = card("del", "p/c.png", 1024, "<img src=\"file://p/c.png\" alt=\"\" loading=\"lazy\">", "DELETE", "p/c.png", "1.00 KB", 12);
    assert_eq!(generate_html_preview(&groups, &resolved), page(1, &section(1, 2, &(first + &second))));
}

#[test]
fn local_files_that_no_browser_shows_have_a_placeholder() {
    let groups = vec![vec![local("p/a.heic", "heic", 1, 0)]];
    let resolved = vec![vec![here("p/a.heic", None)]];
    let only = card("keep", "p/a.heic", 1, "<div class=\"no-preview\">HEIC — no browser preview</div>", "KEEP", "p/a.heic", "0.00 KB", 0);
    assert_eq!(generate_html_preview(&groups, &resolved), page(1, &section(1, 1, &only)));
}

#[test]
fn nas_files_are_shown_by_their_thumbnail() {
    let groups = vec![vec![nas("/v/a.jpg", "jpg")], vec![nas("/v/b.jpg", "jpg"), nas("/v/c.heic", "heic"), nas("/v/d", "")]];
    let resolved = vec![vec![there(Some("data:image/png;base64,AAAA"))], vec![there(None), there(Some("data:x")), there(None)]];
    let a = card("keep", "/v/a.jpg", 2048, "<img src=\"data:image/png;base64,AAAA\" alt=\"\">", "KEEP", "shown /v/a.jpg", "2.00 KB", 7);
    let b = card("keep", "/v/b.jpg", 2048, "<div class=\"no-preview\">JPG — no preview</div>", "KEEP", "shown /v/b.jpg", "2.00 KB", 7);
    let c = card("del", "/v/c.heic", 2048, "<img src=\"data:x\" alt=\"\">", "DELETE", "shown /v/c.heic", "2.00 KB", 7);
    let d = card("del", "/v/d", 2048, "<div class=\"no-preview\"> — no preview</div>", "DELETE", "shown /v/d", "2.00 KB", 7);
    let sections = section(1, 1, &a) + &section(2, 3, &(b + &c + &d));
    assert_eq!(generate_html_preview(&groups, &resolved), page(2, &sections));
}

#[test]
fn placeholder_names_the_kind_of_file() {
    let mut text = String::new();
    push_placeholder(&mut text, "RAW", false);
    assert_eq!(text, "<div class=\"no-preview\">RAW — no browser preview</div>");
}

#[test]
fn canonical_paths_are_needed_of_shown_local_files() {
    assert!(needs_canonical_path(&local("a.gif", "gif", 1, 1)));
    assert!(!needs_canonical_path(&local("a.cr2", "cr2", 1, 1)));
    assert!(!needs_canonical_path(&nas("a.gif", "gif")));
}

#[test]
fn missing_lookups_are_noticed() {
    let groups = vec![vec![local("a", "gif", 1, 1), nas("b", "gif")]];
    assert!(is_all_resolved(&groups, &vec![vec![here("a", None), there(None)]]));
    assert!(!is_all_resolved(&groups, &vec![vec![here("a", None)]]));
    assert!(!is_all_resolved(&groups, &vec![vec![there(None), there(None)]]));
    assert!(!is_all_resolved(&groups, &Vec::new()));
}

fn is_reply(reply: &Reply, status: u16, content: Content, body: &str) -> bool {
    reply.status == status && reply.content == content && reply.body == body
}

#[test]
fn requests_are_routed_by_method_and_url() {
    assert!(route("GET", "/") == Route::Page);
    assert!(route("GET", "/draft") == Route::Draft);
    assert!(route("POST", "/autosave") == Route::Autosave);
    assert!(route("POST", "/delete") == Route::Delete);
    for (method, url) in [("POST", "/"), ("GET", "/delete"), ("GET", "/autosave"), ("POST", "/draft"), ("get", "/"), ("GET", "/draft?"), ("PUT", "/delete"), ("GET", "")] {
        assert!(route(method, url) == Route::Unknown);
    }
}

#[test]
fn content_types_have_their_header() {
    assert_eq!(content_type(Content::Html), Some("text/html; charset=utf-8"));
    assert_eq!(content_type(Content::Json), Some("application/json"));
    assert_eq!(content_type(Content::Plain), None);
}

#[test]
fn page_is_handed_out() {
    let outcome = handle("<p>", Request::Page);
    assert!(matches!(outcome, Outcome::Answer(r) if is_reply(&r, 200, Content::Html, "<p>")));
}

#[test]
fn draft_is_an_empty_list_at_first() {
    let outcome = handle("<p>", Request::Draft { saved: None });
    assert!(matches!(outcome, Outcome::Answer(r) if is_reply(&r, 200, Content::Json, "[]")));
}

#[test]
fn saved_selection_is_handed_out_as_it_is() {
    let body = "[\"/p/a.jpg\", \"/p/\u{e9}.jpg\"]".to_string();
    let saved = match handle("<p>", Request::Autosave { body: body.clone() }) {
        Outcome::Save { draft, reply } => {
            assert!(is_reply(&reply, 200, Content::Plain, "OK"));
            draft
        }
        _ => panic!("not saved"),
    };
    assert_eq!(saved, body);
    let outcome = handle("<p>", Request::Draft { saved: Some(saved) });
    assert!(matches!(outcome, Outcome::Answer(r) if is_reply(&r, 200, Content::Json, &body)));
}

#[test]
fn delete_request_ends_with_its_paths() {
    match handle("<p>", Request::Delete { list: Some("[\"/a\", \"b \\\"c\\\"\"]".to_string()) }) {
        Outcome::Finish { reply, paths } => {
            assert!(is_reply(&reply, 200, Content::Plain, "Success"));
            assert_eq!(paths, vec!["/a", "b \"c\""]);
        }
        _ => panic!("not finished"),
    }
    assert!(matches!(
        handle("<p>", Request::Delete { list: Some("[]".to_string()) }),
        Outcome::Finish { paths, .. } if paths.is_empty()
    ));
}

#[test]
fn delete_request_that_is_no_list_fails() {
    for body in ["", "{}", "[1]", "null", "[\"a\""] {
        let outcome = handle("<p>", Request::Delete { list: Some(body.to_string()) });
        assert!(matches!(outcome, Outcome::Fail(ReviewError::Malformed)));
    }
    assert!(matches!(handle("<p>", Request::Delete { list: None }), Outcome::Fail(ReviewError::Unreadable)));
}

#[test]
fn deletion_is_concluded_by_the_listed_paths() {
    assert!(matches!(conclude(Ok(vec!["x".to_string()])), Outcome::Finish { paths, .. } if paths == vec!["x"]));
    assert!(matches!(conclude(Err(ReviewError::Malformed)), Outcome::Fail(ReviewError::Malformed)));
}

#[test]
fn other_requests_are_not_found() {
    let outcome = handle("<p>", Request::Unknown);
    assert!(matches!(outcome, Outcome::Answer(r) if is_reply(&r, 404, Content::Plain, "Not Found")));
}

#[test]
fn rejected_delete_request_keeps_the_selection() {
    let saved = match handle("<p>", Request::Autosave { body: "{\"del\":[\"/a\"]}".to_string() }) {
        Outcome::Save { draft, .. } => draft,
        _ => panic!("not saved"),
    };
    assert!(matches!(handle("<p>", Request::Delete { list: Some("{}".to_string()) }), Outcome::Fail(_)));
    let outcome = handle("<p>", Request::Draft { saved: Some(saved) });
    assert!(matches!(outcome, Outcome::Answer(r) if is_reply(&r, 200, Content::Json, "{\"del\":[\"/a\"]}")));
}

#[test]
fn selection_to_keep_everything_is_no_missing_selection() {
    let nothing_saved = match handle("<p>", Request::Draft { saved: None }) {
        Outcome::Answer(reply) => reply.body,
        _ => panic!("no answer"),
    };
    let all_kept = match handle("<p>", Request::Draft { saved: Some("{\"del\":[]}".to_string()) }) {
        Outcome::Answer(reply) => reply.body,
        _ => panic!("no answer"),
    };
    assert_ne!(nothing_saved, all_kept);
    assert!(PAGE_FOOT.contains("fetch('/autosave', { method: 'POST', body: JSON.stringify({ del: toDelete }) })"));
    assert!(PAGE_FOOT.contains("if (!draft || (Array.isArray(draft) && draft.length === 0)) return;"));
    assert!(PAGE_FOOT.contains("const deleteSet = new Set(Array.isArray(draft) ? draft : draft.del);"));
    assert!(PAGE_FOOT.contains("fetch('/delete', { method: 'POST', body: JSON.stringify(toDelete) })"));
}

#[test]
fn page_marks_what_the_totals_count() {
    let groups = vec![
        vec![local("a", "jpg", 9, 1), local("b", "jpg", 5, 1), local("c", "heic", 3, 1)],
        Vec::new(),
        vec![local("d", "png", 7, 1), local("e", "png", 6, 1)],
    ];
    let resolved = vec![
        vec![here("a", None), here("b", None), here("c", None)],
        Vec::new(),
        vec![here("d", None), here("e", None)],
    ];
    let html = generate_html_preview(&groups, &resolved);
    let (removals, bytes) = compute_totals(&groups);
    assert_eq!(html.matches("class=\"card del\"").count(), removals);
    assert_eq!(html.matches("class=\"card keep\"").count(), 2);
    let shown: u64 = html
        .split("class=\"card del\"")
        .skip(1)
        .map(|rest| {
            let size = rest.split("data-size=\"").nth(1).unwrap();
            size.split('"').next().unwrap().parse::<u64>().unwrap()
        })
        .sum();
    assert_eq!(shown, bytes);
    assert!(html.contains("Found <b>3</b> groups"));
}

//! The page on which the groups are reviewed.

use vstd::prelude::*;
use crate::duplicates::concat;
use crate::entry::{is_browser_displayable, listed, FileEntry, FileSource, BROWSER_DISPLAYABLE};
use crate::grouping::contents;
use crate::report::{group_bytes, group_removals, total_bytes, total_removals};
use crate::size::{format_size, size_text};
use crate::text::{
    decimal, push_decimal, push_spaces_escaped, spaces_escaped, to_uppercase, uppercase,
};

verus! {

/// The page up to the number of groups.
pub const PAGE_HEAD: &'static str = r#"<!DOCTYPE html>
<html lang="en">
<head>
<meta charset="utf-8">
<title>Duplicate Image Review</title>
<style>
  :root { --bg: #0f172a; --card: #1e293b; --accent: #3b82f6; --text: #f8fafc; --keep: #10b981; --del: #ef4444; }
  * { box-sizing: border-box; margin: 0; padding: 0; font-family: 'Inter', system-ui, sans-serif; }
  body { background: var(--bg); color: var(--text); padding-bottom: 100px; }
  header { background: rgba(15, 23, 42, 0.8); backdrop-filter: blur(12px); padding: 2rem; position: sticky; top: 0; z-index: 100; border-bottom: 1px solid rgba(255,255,255,0.1); display: flex; justify-content: space-between; align-items: center; }
  h1 { font-size: 1.8rem; font-weight: 700; background: linear-gradient(to right, #38bdf8, #818cf8); -webkit-background-clip: text; -webkit-text-fill-color: transparent; }
  .summary { color: #94a3b8; font-size: 0.95rem; margin-top: 0.5rem; }
  .container { max-width: 1400px; margin: 2rem auto; padding: 0 2rem; }
  .group { background: var(--card); border-radius: 16px; padding: 1.5rem; margin-bottom: 2rem; box-shadow: 0 10px 15px -3px rgba(0,0,0,0.1); border: 1px solid rgba(255,255,255,0.05); }
  .group-title { font-size: 1.1rem; font-weight: 600; color: #cbd5e1; margin-bottom: 1rem; display: flex; justify-content: space-between;}
  .images { display: grid; grid-template-columns: repeat(auto-fill, minmax(280px, 1fr)); gap: 1.5rem; }
  .card { border-radius: 12px; overflow: hidden; background: #0f172a; cursor: pointer; transition: all 0.2s ease; position: relative; border: 2px solid transparent; }
  .card:hover { transform: translateY(-4px); box-shadow: 0 20px 25px -5px rgba(0,0,0,0.3); }
  .card.keep { border-color: var(--keep); box-shadow: 0 0 0 2px rgba(16,185,129,0.2); }
  .card.del { border-color: var(--del); opacity: 0.6; filter: grayscale(50%); }
  .card.del:hover { opacity: 1; filter: none; }
  .card img { width: 100%; height: 220px; object-fit: cover; display: block; border-bottom: 1px solid rgba(255,255,255,0.05); }
  .badge { position: absolute; top: 12px; right: 12px; padding: 4px 10px; border-radius: 20px; font-size: 0.75rem; font-weight: 700; letter-spacing: 0.05em; backdrop-filter: blur(4px); box-shadow: 0 2px 4px rgba(0,0,0,0.2); transition: all 0.2s; }
  .keep .badge { background: rgba(16,185,129,0.9); color: white; }
  .del .badge { background: rgba(239,68,68,0.9); color: white; }
  .info { padding: 1rem; }
  .path { color: #cbd5e1; font-size: 0.85rem; word-break: break-all; margin-bottom: 0.5rem; line-height: 1.4; }
  .meta { color: #64748b; font-size: 0.8rem; display: flex; justify-content: space-between; }
  .submit-bar { position: fixed; bottom: 0; left: 0; right: 0; background: rgba(30, 41, 59, 0.9); backdrop-filter: blur(16px); padding: 1rem 2rem; border-top: 1px solid rgba(255,255,255,0.1); display: flex; justify-content: space-between; align-items: center; z-index: 1000; transform: translateY(100%); transition: transform 0.3s cubic-bezier(0.4, 0, 0.2, 1); }
  .submit-bar.visible { transform: translateY(0); }
  .stats { font-size: 1rem; color: #e2e8f0; }
  .stats span { font-weight: 700; color: #ef4444; }
  .btn { background: linear-gradient(135deg, #ef4444, #b91c1c); color: white; border: none; padding: 0.75rem 2rem; border-radius: 8px; font-weight: 600; font-size: 1rem; cursor: pointer; transition: all 0.2s; box-shadow: 0 4px 6px -1px rgba(239, 68, 68, 0.4); }
  .btn:hover { transform: translateY(-2px); box-shadow: 0 10px 15px -3px rgba(239, 68, 68, 0.5); }
  .no-preview { width: 100%; height: 220px; display: flex; align-items: center; justify-content: center; color: #555; font-size: 0.85em; background: #1a1a1a; }
</style>
</head>
<body>
<header>
  <div>
    <h1>Duplicate Image Review</h1>
    <div class="summary">Found <b>"#;

/// The page between the number of groups and the first group.
pub const PAGE_TOP: &'static str = r#"</b> groups of identical or similar photos</div>
  </div>
</header>
<div class="container">
"#;

/// The page behind the last group. Its script saves the selection after every click and takes it up
/// again when the page is loaded. A saved selection is an object that lists the files to delete under
/// `del`, so it is never the text `[]`, which stands for no saved selection: that every file is to be
/// kept is told apart from nothing having been saved.
pub const PAGE_FOOT: &'static str = r#"</div>
<div class="submit-bar" id="submitBar">
  <div class="stats">Ready to delete <span id="delCount">0</span> files &nbsp;&middot;&nbsp; Free up <span id="delSize">0 KB</span></div>
  <button class="btn" id="submitBtn">Delete Selected Files</button>
</div>

<script>
  function formatSize(bytes) {
    if (bytes >= 1073741824) return (bytes / 1073741824).toFixed(2) + ' GB';
    if (bytes >= 1048576) return (bytes / 1048576).toFixed(2) + ' MB';
    return (bytes / 1024).toFixed(2) + ' KB';
  }

  function updateStats() {
    const dels = document.querySelectorAll('.card.del');
    let totalBytes = 0;
    dels.forEach(c => totalBytes += parseInt(c.dataset.size || '0'));
    document.getElementById('delCount').textContent = dels.length;
    document.getElementById('delSize').textContent = formatSize(totalBytes);
    const bar = document.getElementById('submitBar');
    if (dels.length > 0) { bar.classList.add('visible'); } else { bar.classList.remove('visible'); }
  }

  function autosave() {
    const toDelete = Array.from(document.querySelectorAll('.card.del')).map(c => c.dataset.path);
    fetch('/autosave', { method: 'POST', body: JSON.stringify({ del: toDelete }) }).catch(() => {});
  }

  document.querySelectorAll('.card').forEach(card => {
    card.addEventListener('click', () => {
      if (card.classList.contains('keep')) {
        card.classList.remove('keep');
        card.classList.add('del');
        card.querySelector('.badge').textContent = 'DELETE';
      } else {
        card.classList.remove('del');
        card.classList.add('keep');
        card.querySelector('.badge').textContent = 'KEEP';
      }
      updateStats();
      autosave();
    });
  });

  updateStats();

  // Restore saved draft selections on page load
  fetch('/draft').then(r => r.json()).then(draft => {
    if (!draft || (Array.isArray(draft) && draft.length === 0)) return;
    const deleteSet = new Set(Array.isArray(draft) ? draft : draft.del);
    document.querySelectorAll('.card').forEach(card => {
      if (deleteSet.has(card.dataset.path)) {
        card.classList.remove('keep');
        card.classList.add('del');
        card.querySelector('.badge').textContent = 'DELETE';
      } else {
        card.classList.remove('del');
        card.classList.add('keep');
        card.querySelector('.badge').textContent = 'KEEP';
      }
    });
    updateStats();
  }).catch(() => {});

  document.getElementById('submitBtn').addEventListener('click', async () => {
    const toDelete = Array.from(document.querySelectorAll('.card.del')).map(c => c.dataset.path);
    if (!confirm(`Are you absolutely sure you want to permanently delete ${toDelete.length} files? This cannot be undone.`)) return;
    
    document.getElementById('submitBtn').textContent = 'Deleting...';
    document.getElementById('submitBtn').disabled = true;

    try {
      const res = await fetch('/delete', { method: 'POST', body: JSON.stringify(toDelete) });
      if (res.ok) {
        document.body.innerHTML = '<div style="display:flex;height:100vh;align-items:center;justify-content:center;flex-direction:column;background:#0f172a;color:#f8fafc;font-family:system-ui"><h1>🎉 Deletion Complete!</h1><p style="color:#94a3b8;margin-top:1rem">You can close this window and check your terminal.</p></div>';
      } else {
        alert('Error deleting files.');
        document.getElementById('submitBtn').textContent = 'Try Again';
        document.getElementById('submitBtn').disabled = false;
      }
    } catch (e) {
      alert('Network error. Don\'t worry — your selections are saved. Use --resume to continue.');
    }
  });

  document.querySelectorAll('.ts').forEach(el => {
    const d = new Date(parseInt(el.dataset.ts) * 1000);
    el.textContent = 'modified ' + d.toLocaleDateString(undefined, {year:'numeric',month:'short',day:'numeric'});
  });
</script>
</body></html>
"#;

/// What had to be looked up for one file of the page.
pub enum Resolved {
    /// Of a file on this machine: its path, and its canonical path where that could be found.
    Local { path: String, canonical: Option<String> },
    /// Of a file on a NAS: its thumbnail as a data URI, where there is one.
    Nas { thumbnail: Option<String> },
}

/// Whether what was looked up is of the kind that the file needs.
pub open spec fn resolves(entry: FileEntry, resolved: Resolved) -> bool {
    entry.source is Local <==> resolved is Local
}

/// Whether everything has been looked up that the page needs.
pub open spec fn all_resolved(
    groups: Seq<Seq<FileEntry>>,
    resolved: Seq<Seq<Resolved>>,
) -> bool {
    &&& resolved.len() == groups.len()
    &&& forall|g: int|
        0 <= g < groups.len() ==> group_resolved(#[trigger] groups[g], resolved[g])
}

/// Whether everything has been looked up that the files of one group need.
pub open spec fn group_resolved(group: Seq<FileEntry>, resolved: Seq<Resolved>) -> bool {
    &&& resolved.len() == group.len()
    &&& forall|i: int| 0 <= i < group.len() ==> resolves(#[trigger] group[i], resolved[i])
}

/// What stands in the place of a picture that cannot be shown. `shown` is its extension in capitals.
pub open spec fn placeholder_text(shown: Seq<char>, nas: bool) -> Seq<char> {
    "<div class=\"no-preview\">"@ + shown + if nas {
        " — no preview</div>"@
    } else {
        " — no browser preview</div>"@
    }
}

/// The picture of a file, or what stands in its place: a file on this machine is shown by the
/// browser where the browser can, a file on a NAS by its thumbnail where there is one.
pub open spec fn media_text(entry: FileEntry, resolved: Resolved) -> Seq<char> {
    match resolved {
        Resolved::Local { path, canonical } => if listed(BROWSER_DISPLAYABLE@, entry.ext@) {
            let shown = match canonical {
                Some(c) => c@,
                None => path@,
            };
            "<img src=\"file://"@ + spaces_escaped(shown) + "\" alt=\"\" loading=\"lazy\">"@
        } else {
            placeholder_text(uppercase(entry.ext@), false)
        },
        Resolved::Nas { thumbnail } => match thumbnail {
            Some(uri) => "<img src=\""@ + uri@ + "\" alt=\"\">"@,
            None => placeholder_text(uppercase(entry.ext@), true),
        },
    }
}

/// The path by which the page names a file when it is to be deleted.
pub open spec fn path_text(entry: FileEntry, resolved: Resolved) -> Seq<char> {
    match entry.source {
        FileSource::Local(_) => match resolved {
            Resolved::Local { path, .. } => path@,
            Resolved::Nas { .. } => Seq::empty(),
        },
        FileSource::Nas(path) => path@,
    }
}

/// How the card of a file starts.
pub open spec fn card_start(entry: FileEntry, resolved: Resolved, first: bool) -> Seq<char> {
    "  <div class=\"card "@ + (if first {
        "keep"@
    } else {
        "del"@
    }) + "\" data-path=\""@ + path_text(entry, resolved) + "\" data-size=\""@ + decimal(
        entry.size as nat,
    ) + "\">"@
}

/// The mark on the card of a file.
pub open spec fn badge_text(first: bool) -> Seq<char> {
    "\n    <div class=\"badge\">"@ + (if first {
        "KEEP"@
    } else {
        "DELETE"@
    }) + "</div>\n    <div class=\"info\">\n      <div class=\"path\">"@
}

/// What a card says of its file.
pub open spec fn info_text(entry: FileEntry) -> Seq<char> {
    entry.display_path@ + "</div>\n      <div class=\"meta\">"@ + size_text(entry.size)
        + " &nbsp;&middot;&nbsp; <span class=\"ts\" data-ts=\""@ + decimal(entry.mtime as nat)
        + "\"></span></div>\n    </div>\n  </div>\n"@
}

/// The card of one file. The first file of a group is marked to be kept, the others to be deleted.
pub open spec fn card_text(entry: FileEntry, resolved: Resolved, first: bool) -> Seq<char> {
    card_start(entry, resolved, first) + media_text(entry, resolved) + badge_text(first)
        + info_text(entry)
}

/// The cards of a group.
pub open spec fn cards_text(group: Seq<FileEntry>, resolved: Seq<Resolved>, n: nat) -> Seq<char>
    decreases n,
{
    if n == 0 {
        Seq::empty()
    } else {
        cards_text(group, resolved, (n - 1) as nat) + card_text(
            group[n - 1],
            resolved[n - 1],
            n == 1,
        )
    }
}

/// The part of the page on the group at place `at`.
pub open spec fn section_text(group: Seq<FileEntry>, resolved: Seq<Resolved>, at: int) -> Seq<
    char,
> {
    "<div class=\"group\">\n<div class=\"group-title\">Group <span>"@ + decimal((at + 1) as nat)
        + "</span> &mdash; "@ + decimal(group.len())
        + " copies</div>\n<div class=\"images\">\n"@ + cards_text(group, resolved, group.len())
        + "</div></div>\n"@
}

/// The parts of the page on the first `n` groups.
pub open spec fn sections_text(
    groups: Seq<Seq<FileEntry>>,
    resolved: Seq<Seq<Resolved>>,
    n: nat,
) -> Seq<char>
    decreases n,
{
    if n == 0 {
        Seq::empty()
    } else {
        sections_text(groups, resolved, (n - 1) as nat) + section_text(
            groups[n - 1],
            resolved[n - 1],
            n - 1,
        )
    }
}

/// The whole page.
pub open spec fn page_text(groups: Seq<Seq<FileEntry>>, resolved: Seq<Seq<Resolved>>) -> Seq<char> {
    PAGE_HEAD@ + decimal(groups.len()) + PAGE_TOP@ + sections_text(groups, resolved, groups.len())
        + PAGE_FOOT@
}

/// Whether the page shows the file itself, so that its canonical path is needed.
pub fn needs_canonical_path(entry: &FileEntry) -> (r: bool)
    ensures
        r == (entry.source is Local && listed(BROWSER_DISPLAYABLE@, entry.ext@)),
{
    match entry.source {
        FileSource::Local(_) => is_browser_displayable(entry.ext.as_str()),
        FileSource::Nas(_) => false,
    }
}

/// Whether everything has been looked up that the page needs.
pub fn is_all_resolved(groups: &Vec<Vec<FileEntry>>, resolved: &Vec<Vec<Resolved>>) -> (r: bool)
    ensures
        r == all_resolved(contents(groups@), contents(resolved@)),
{
    let ghost all = contents(groups@);
    let ghost found = contents(resolved@);
    if groups.len() != resolved.len() {
        return false;
    }
    let mut g: usize = 0;
    while g < groups.len()
        invariant
            g <= groups@.len(),
            groups@.len() == resolved@.len(),
            all == contents(groups@),
            found == contents(resolved@),
            forall|h: int| 0 <= h < g ==> group_resolved(#[trigger] all[h], found[h]),
        decreases groups@.len() - g,
    {
        if !is_group_resolved(&groups[g], &resolved[g]) {
            assert(!group_resolved(all[g as int], found[g as int]));
            return false;
        }
        g += 1;
    }
    true
}

fn is_group_resolved(group: &Vec<FileEntry>, resolved: &Vec<Resolved>) -> (r: bool)
    ensures
        r == group_resolved(group@, resolved@),
{
    if group.len() != resolved.len() {
        return false;
    }
    let mut i: usize = 0;
    while i < group.len()
        invariant
            i <= group@.len(),
            group@.len() == resolved@.len(),
            forall|j: int| 0 <= j < i ==> resolves(#[trigger] group@[j], resolved@[j]),
        decreases group@.len() - i,
    {
        let fits = match (&group[i].source, &resolved[i]) {
            (FileSource::Local(_), Resolved::Local { .. }) => true,
            (FileSource::Nas(_), Resolved::Nas { .. }) => true,
            _ => false,
        };
        if !fits {
            assert(!resolves(group@[i as int], resolved@[i as int]));
            return false;
        }
        i += 1;
    }
    true
}

/// Adds what stands in the place of a picture that cannot be shown.
pub fn push_placeholder(out: &mut String, shown: &str, nas: bool)
    ensures
        final(out)@ == old(out)@ + placeholder_text(shown@, nas),
{
    out.append("<div class=\"no-preview\">");
    out.append(shown);
    if nas {
        out.append(" — no preview</div>");
    } else {
        out.append(" — no browser preview</div>");
    }
    assert(out@ =~= old(out)@ + placeholder_text(shown@, nas));
}

fn push_media(out: &mut String, entry: &FileEntry, resolved: &Resolved)
    ensures
        final(out)@ == old(out)@ + media_text(*entry, *resolved),
{
    match resolved {
        Resolved::Local { path, canonical } => {
            if is_browser_displayable(entry.ext.as_str()) {
                out.append("<img src=\"file://");
                match canonical {
                    Some(c) => push_spaces_escaped(out, c.as_str()),
                    None => push_spaces_escaped(out, path.as_str()),
                }
                out.append("\" alt=\"\" loading=\"lazy\">");
            } else {
                let shown = to_uppercase(entry.ext.as_str());
                push_placeholder(out, shown.as_str(), false);
            }
        },
        Resolved::Nas { thumbnail } => {
            match thumbnail {
                Some(uri) => {
                    out.append("<img src=\"");
                    out.append(uri.as_str());
                    out.append("\" alt=\"\">");
                },
                None => {
                    let shown = to_uppercase(entry.ext.as_str());
                    push_placeholder(out, shown.as_str(), true);
                },
            }
        },
    }
    assert(out@ =~= old(out)@ + media_text(*entry, *resolved));
}

fn push_path(out: &mut String, entry: &FileEntry, resolved: &Resolved)
    ensures
        final(out)@ == old(out)@ + path_text(*entry, *resolved),
{
    match &entry.source {
        FileSource::Local(_) => {
            match resolved {
                Resolved::Local { path, .. } => {
                    out.append(path.as_str());
                },
                Resolved::Nas { .. } => {},
            }
        },
        FileSource::Nas(path) => {
            out.append(path.as_str());
        },
    }
    assert(out@ =~= old(out)@ + path_text(*entry, *resolved));
}

fn push_card_start(out: &mut String, entry: &FileEntry, resolved: &Resolved, first: bool)
    ensures
        final(out)@ == old(out)@ + card_start(*entry, *resolved, first),
{
    out.append("  <div class=\"card ");
    if first {
        out.append("keep");
    } else {
        out.append("del");
    }
    out.append("\" data-path=\"");
    push_path(out, entry, resolved);
    out.append("\" data-size=\"");
    push_decimal(out, entry.size);
    out.append("\">");
    assert(out@ =~= old(out)@ + card_start(*entry, *resolved, first));
}

fn push_badge(out: &mut String, first: bool)
    ensures
        final(out)@ == old(out)@ + badge_text(first),
{
    out.append("\n    <div class=\"badge\">");
    if first {
        out.append("KEEP");
    } else {
        out.append("DELETE");
    }
    out.append("</div>\n    <div class=\"info\">\n      <div class=\"path\">");
    assert(out@ =~= old(out)@ + badge_text(first));
}

fn push_info(out: &mut String, entry: &FileEntry)
    ensures
        final(out)@ == old(out)@ + info_text(*entry),
{
    out.append(entry.display_path.as_str());
    out.append("</div>\n      <div class=\"meta\">");
    let size = format_size(entry.size);
    out.append(size.as_str());
    out.append(" &nbsp;&middot;&nbsp; <span class=\"ts\" data-ts=\"");
    push_decimal(out, entry.mtime);
    out.append("\"></span></div>\n    </div>\n  </div>\n");
    assert(out@ =~= old(out)@ + info_text(*entry));
}

fn push_card(out: &mut String, entry: &FileEntry, resolved: &Resolved, first: bool)
    ensures
        final(out)@ == old(out)@ + card_text(*entry, *resolved, first),
{
    push_card_start(out, entry, resolved, first);
    push_media(out, entry, resolved);
    push_badge(out, first);
    push_info(out, entry);
    assert(out@ =~= old(out)@ + card_text(*entry, *resolved, first));
}

fn push_section(out: &mut String, group: &Vec<FileEntry>, resolved: &Vec<Resolved>, at: usize)
    requires
        at < usize::MAX,
        resolved@.len() == group@.len(),
    ensures
        final(out)@ == old(out)@ + section_text(group@, resolved@, at as int),
{
    out.append("<div class=\"group\">\n<div class=\"group-title\">Group <span>");
    push_decimal(out, (at + 1) as u64);
    out.append("</span> &mdash; ");
    push_decimal(out, group.len() as u64);
    out.append(" copies</div>\n<div class=\"images\">\n");
    let ghost head = out@;
    let mut j: usize = 0;
    assert(out@ =~= head + cards_text(group@, resolved@, 0));
    while j < group.len()
        invariant
            j <= group@.len(),
            resolved@.len() == group@.len(),
            out@ == head + cards_text(group@, resolved@, j as nat),
        decreases group@.len() - j,
    {
        push_card(out, &group[j], &resolved[j], j == 0);
        assert(out@ =~= head + cards_text(group@, resolved@, (j + 1) as nat));
        j += 1;
    }
    out.append("</div></div>\n");
    assert(out@ =~= old(out)@ + section_text(group@, resolved@, at as int));
}

/// The page on which the groups are reviewed: a card for every file, in each group the first
/// marked to be kept and the others to be deleted.
pub fn generate_html_preview(groups: &Vec<Vec<FileEntry>>, resolved: &Vec<Vec<Resolved>>) -> (html:
    String)
    requires
        all_resolved(contents(groups@), contents(resolved@)),
    ensures
        html@ == page_text(contents(groups@), contents(resolved@)),
{
    let ghost all = contents(groups@);
    let ghost found = contents(resolved@);
    let mut html = String::new();
    html.append(PAGE_HEAD);
    push_decimal(&mut html, groups.len() as u64);
    html.append(PAGE_TOP);
    let ghost head = html@;
    let mut i: usize = 0;
    assert(html@ =~= head + sections_text(all, found, 0));
    while i < groups.len()
        invariant
            all == contents(groups@),
            found == contents(resolved@),
            all_resolved(all, found),
            i <= groups@.len(),
            html@ == head + sections_text(all, found, i as nat),
        decreases groups@.len() - i,
    {
        assert(group_resolved(all[i as int], found[i as int]));
        push_section(&mut html, &groups[i], &resolved[i], i);
        assert(html@ =~= head + sections_text(all, found, (i + 1) as nat));
        i += 1;
    }
    html.append(PAGE_FOOT);
    assert(html@ =~= page_text(all, found));
    html
}

/// A card of the page: the file that it shows, and whether it is marked to be kept.
pub struct Card {
    pub entry: FileEntry,
    pub resolved: Resolved,
    pub kept: bool,
}

/// The cards of a group.
pub open spec fn group_cards(group: Seq<FileEntry>, resolved: Seq<Resolved>) -> Seq<Card> {
    Seq::new(
        group.len(),
        |i: int| Card { entry: group[i], resolved: resolved[i], kept: i == 0 },
    )
}

/// The text of some cards.
pub open spec fn joined_cards(cards: Seq<Card>) -> Seq<char>
    decreases cards.len(),
{
    if cards.len() == 0 {
        Seq::empty()
    } else {
        joined_cards(cards.drop_last()) + card_text(
            cards.last().entry,
            cards.last().resolved,
            cards.last().kept,
        )
    }
}

/// The cards of the page, group by group.
pub open spec fn page_cards(groups: Seq<Seq<FileEntry>>, resolved: Seq<Seq<Resolved>>) -> Seq<
    Seq<Card>,
> {
    Seq::new(groups.len(), |g: int| group_cards(groups[g], resolved[g]))
}

/// How many cards are marked to be deleted.
pub open spec fn delete_count(cards: Seq<Card>) -> nat {
    cards.filter(|c: Card| !c.kept).len()
}

/// How many cards are marked to be kept.
pub open spec fn keep_count(cards: Seq<Card>) -> nat {
    cards.filter(|c: Card| c.kept).len()
}

/// The sizes that the cards marked to be deleted give, added up.
pub open spec fn delete_bytes(cards: Seq<Card>) -> nat
    decreases cards.len(),
{
    if cards.len() == 0 {
        0
    } else {
        delete_bytes(cards.drop_last()) + if cards.last().kept {
            0nat
        } else {
            cards.last().entry.size as nat
        }
    }
}

/// How many groups hold a file.
pub open spec fn filled_groups(groups: Seq<Seq<FileEntry>>) -> nat {
    groups.filter(|g: Seq<FileEntry>| g.len() > 0).len()
}

proof fn lemma_cards_are_joined(group: Seq<FileEntry>, resolved: Seq<Resolved>, n: nat)
    requires
        n <= group.len(),
    ensures
        cards_text(group, resolved, n) == joined_cards(group_cards(group, resolved).take(n as int)),
    decreases n,
{
    let cards = group_cards(group, resolved);
    if n > 0 {
        lemma_cards_are_joined(group, resolved, (n - 1) as nat);
        assert(cards.take(n as int).drop_last() =~= cards.take(n - 1));
    }
}

proof fn lemma_group_marks(group: Seq<FileEntry>, resolved: Seq<Resolved>)
    ensures
        delete_count(group_cards(group, resolved)) == group_removals(group),
        delete_bytes(group_cards(group, resolved)) == group_bytes(group),
        keep_count(group_cards(group, resolved)) == if group.len() > 0 {
            1nat
        } else {
            0nat
        },
    decreases group.len(),
{
    reveal(Seq::filter);
    let cards = group_cards(group, resolved);
    if group.len() > 0 {
        lemma_group_marks(group.drop_last(), resolved);
        assert(cards.drop_last() =~= group_cards(group.drop_last(), resolved));
    }
}

proof fn lemma_marks_concat(a: Seq<Card>, b: Seq<Card>)
    ensures
        delete_count(a + b) == delete_count(a) + delete_count(b),
        keep_count(a + b) == keep_count(a) + keep_count(b),
        delete_bytes(a + b) == delete_bytes(a) + delete_bytes(b),
    decreases b.len(),
{
    reveal(Seq::filter);
    if b.len() == 0 {
        assert(a + b =~= a);
    } else {
        assert((a + b).drop_last() =~= a + b.drop_last());
        lemma_marks_concat(a, b.drop_last());
    }
}

/// The page and the totals agree: it has a card marked to be deleted for each file that the totals
/// count, with sizes that add up to the bytes that they count, and one card marked to be kept for
/// each group that holds a file. The text of each group is the text of its cards.
pub proof fn law_page_marks_what_the_totals_count(
    groups: Seq<Seq<FileEntry>>,
    resolved: Seq<Seq<Resolved>>,
)
    ensures
        forall|g: int|
            0 <= g < groups.len() ==> cards_text(
                #[trigger] groups[g],
                resolved[g],
                groups[g].len(),
            ) == joined_cards(page_cards(groups, resolved)[g]),
        delete_count(concat(page_cards(groups, resolved))) == total_removals(groups),
        delete_bytes(concat(page_cards(groups, resolved))) == total_bytes(groups),
        keep_count(concat(page_cards(groups, resolved))) == filled_groups(groups),
    decreases groups.len(),
{
    reveal(Seq::filter);
    assert forall|g: int| 0 <= g < groups.len() implies cards_text(
        #[trigger] groups[g],
        resolved[g],
        groups[g].len(),
    ) == joined_cards(page_cards(groups, resolved)[g]) by {
        let cards = group_cards(groups[g], resolved[g]);
        lemma_cards_are_joined(groups[g], resolved[g], groups[g].len());
        assert(cards.take(groups[g].len() as int) =~= cards);
    }
    let cards = page_cards(groups, resolved);
    if groups.len() > 0 {
        let before = groups.drop_last();
        law_page_marks_what_the_totals_count(before, resolved);
        assert(cards.drop_last() =~= page_cards(before, resolved));
        lemma_group_marks(groups.last(), resolved[groups.len() - 1]);
        lemma_marks_concat(concat(cards.drop_last()), cards.last());
    }
}

/// What the card of a file holds. The first file of a group is marked to be kept and the others to be
/// deleted. The card names the file by the path by which it is deleted, gives its size and its time of
/// change, and shows its path.
pub proof fn law_card_tells_of_its_file(entry: FileEntry, resolved: Resolved)
    requires
        resolves(entry, resolved),
    ensures
        ({
            let path = match entry.source {
                FileSource::Local(_) => resolved->path@,
                FileSource::Nas(path) => path@,
            };
            let named = "\" data-path=\""@ + path + "\" data-size=\""@ + decimal(
                entry.size as nat,
            ) + "\">"@ + media_text(entry, resolved);
            let told = "</div>\n    <div class=\"info\">\n      <div class=\"path\">"@
                + entry.display_path@ + "</div>\n      <div class=\"meta\">"@ + size_text(
                entry.size,
            ) + " &nbsp;&middot;&nbsp; <span class=\"ts\" data-ts=\""@ + decimal(
                entry.mtime as nat,
            ) + "\"></span></div>\n    </div>\n  </div>\n"@;
            &&& card_text(entry, resolved, true) == "  <div class=\"card "@ + "keep"@ + named
                + "\n    <div class=\"badge\">"@ + "KEEP"@ + told
            &&& card_text(entry, resolved, false) == "  <div class=\"card "@ + "del"@ + named
                + "\n    <div class=\"badge\">"@ + "DELETE"@ + told
        }),
{
    let path = match entry.source {
        FileSource::Local(_) => resolved->path@,
        FileSource::Nas(path) => path@,
    };
    assert(path_text(entry, resolved) == path);
    let named = "\" data-path=\""@ + path + "\" data-size=\""@ + decimal(entry.size as nat)
        + "\">"@ + media_text(entry, resolved);
    let told = "</div>\n    <div class=\"info\">\n      <div class=\"path\">"@
        + entry.display_path@ + "</div>\n      <div class=\"meta\">"@ + size_text(entry.size)
        + " &nbsp;&middot;&nbsp; <span class=\"ts\" data-ts=\""@ + decimal(entry.mtime as nat)
        + "\"></span></div>\n    </div>\n  </div>\n"@;
    assert(card_start(entry, resolved, true) + media_text(entry, resolved) =~= "  <div class=\"card "@
        + "keep"@ + named);
    assert(card_start(entry, resolved, false) + media_text(entry, resolved)
        =~= "  <div class=\"card "@ + "del"@ + named);
    assert(badge_text(true) + info_text(entry) =~= "\n    <div class=\"badge\">"@ + "KEEP"@ + told);
    assert(badge_text(false) + info_text(entry) =~= "\n    <div class=\"badge\">"@ + "DELETE"@
        + told);
    assert(card_text(entry, resolved, true) =~= "  <div class=\"card "@ + "keep"@ + named
        + "\n    <div class=\"badge\">"@ + "KEEP"@ + told);
    assert(card_text(entry, resolved, false) =~= "  <div class=\"card "@ + "del"@ + named
        + "\n    <div class=\"badge\">"@ + "DELETE"@ + told);
}

/// How a file is shown: a picture on this machine that a browser can show by its canonical path, or by
/// its path where there is no other, a file on a NAS by its thumbnail, and any other file by its kind.
pub proof fn law_card_shows_its_picture(entry: FileEntry, resolved: Resolved)
    requires
        resolves(entry, resolved),
    ensures
        entry.source is Local && listed(BROWSER_DISPLAYABLE@, entry.ext@) ==> media_text(
            entry,
            resolved,
        ) == "<img src=\"file://"@ + spaces_escaped(
            if resolved->canonical is Some {
                resolved->canonical->0@
            } else {
                resolved->path@
            },
        ) + "\" alt=\"\" loading=\"lazy\">"@,
        entry.source is Local && !listed(BROWSER_DISPLAYABLE@, entry.ext@) ==> media_text(
            entry,
            resolved,
        ) == "<div class=\"no-preview\">"@ + uppercase(entry.ext@)
            + " — no browser preview</div>"@,
        entry.source is Nas && resolved->thumbnail is Some ==> media_text(entry, resolved)
            == "<img src=\""@ + resolved->thumbnail->0@ + "\" alt=\"\">"@,
        entry.source is Nas && resolved->thumbnail is None ==> media_text(entry, resolved)
            == "<div class=\"no-preview\">"@ + uppercase(entry.ext@) + " — no preview</div>"@,
{
}

/// The page goes group by group and file by file: one more file adds its card, marked to be kept if it
/// is the first of its group, and one more group adds a section under its number.
pub proof fn law_page_shows_every_file(
    groups: Seq<Seq<FileEntry>>,
    resolved: Seq<Seq<Resolved>>,
    n: nat,
)
    requires
        n < groups.len(),
    ensures
        page_text(groups, resolved) == PAGE_HEAD@ + decimal(groups.len()) + PAGE_TOP@
            + sections_text(groups, resolved, groups.len()) + PAGE_FOOT@,
        sections_text(groups, resolved, 0) == Seq::<char>::empty(),
        sections_text(groups, resolved, n + 1) == sections_text(groups, resolved, n)
            + "<div class=\"group\">\n<div class=\"group-title\">Group <span>"@ + decimal(n + 1)
            + "</span> &mdash; "@ + decimal(groups[n as int].len())
            + " copies</div>\n<div class=\"images\">\n"@ + cards_text(
            groups[n as int],
            resolved[n as int],
            groups[n as int].len(),
        ) + "</div></div>\n"@,
        cards_text(groups[n as int], resolved[n as int], 0) == Seq::<char>::empty(),
        forall|k: nat|
            k < groups[n as int].len() ==> #[trigger] cards_text(
                groups[n as int],
                resolved[n as int],
                k + 1,
            ) == cards_text(groups[n as int], resolved[n as int], k) + card_text(
                groups[n as int][k as int],
                resolved[n as int][k as int],
                k == 0,
            ),
{
    let group = groups[n as int];
    assert(sections_text(groups, resolved, n + 1) =~= sections_text(groups, resolved, n)
        + "<div class=\"group\">\n<div class=\"group-title\">Group <span>"@ + decimal(n + 1)
        + "</span> &mdash; "@ + decimal(group.len())
        + " copies</div>\n<div class=\"images\">\n"@ + cards_text(
        group,
        resolved[n as int],
        group.len(),
    ) + "</div></div>\n"@);
}

} // verus!

//! GitHub gists: what a gist holds, which token to send, which pages to
//! fetch, and which files to download.

use vstd::prelude::*;
use crate::text::{decimal, to_decimal, trim, trimmed};

verus! {

/// The name of a file in a gist.
#[derive(Debug, Hash, Eq, PartialEq)]
pub struct FileName(pub String);

/// The address of a file's raw content.
#[derive(Debug)]
pub struct Url(pub String);

/// The raw content of a file.
#[derive(Debug)]
pub struct Content(pub String);

impl Default for Content {
    fn default() -> (r: Content)
        ensures
            r.0@ == Seq::<char>::empty(),
    {
        Content(String::new())
    }
}

/// A file of a gist: its name, where its content is, and the content once
/// downloaded (empty before).
#[derive(Debug)]
pub struct GistFile {
    pub filename: FileName,
    pub raw_url: Url,
    pub content: Content,
}

/// What a file of a gist holds, as plain text.
#[verifier::ext_equal]
pub struct GistFileView {
    pub filename: Seq<char>,
    pub raw_url: Seq<char>,
    pub content: Seq<char>,
}

impl View for GistFile {
    type V = GistFileView;

    open spec fn view(&self) -> GistFileView {
        GistFileView {
            filename: self.filename.0@,
            raw_url: self.raw_url.0@,
            content: self.content.0@,
        }
    }
}

/// A gist as the paged listing gives it: its page and its files, each
/// under the key that the listing's map of files gives it.
#[derive(Debug)]
pub struct GistsInformation {
    pub html_url: String,
    pub files: Vec<(FileName, GistFile)>,
}

/// What a gist holds, as plain text: the key of each file, and the files
/// in the same order.
#[verifier::ext_equal]
pub struct GistsView {
    pub html_url: Seq<char>,
    pub keys: Seq<Seq<char>>,
    pub files: Seq<GistFileView>,
}

/// The views of the files of a gist.
pub open spec fn files_view(files: Seq<(FileName, GistFile)>) -> Seq<GistFileView> {
    files.map_values(|e: (FileName, GistFile)| e.1@)
}

/// The keys of the files of a gist.
pub open spec fn keys_view(files: Seq<(FileName, GistFile)>) -> Seq<Seq<char>> {
    files.map_values(|e: (FileName, GistFile)| e.0.0@)
}

impl View for GistsInformation {
    type V = GistsView;

    open spec fn view(&self) -> GistsView {
        GistsView { html_url: self.html_url@, keys: keys_view(self.files@), files: files_view(self.files@) }
    }
}

/// The views of a list of gists.
pub open spec fn gists_view(gists: Seq<GistsInformation>) -> Seq<GistsView> {
    gists.map_values(|g: GistsInformation| g@)
}

/// A gist as the single-page listing gives it, with its id and description.
#[derive(Debug)]
pub struct Gist {
    pub id: String,
    pub html_url: String,
    pub description: Option<String>,
    pub files: Vec<GistFile>,
}

/// The heading printed for a gist: `Gist {id}: {description}`.
pub open spec fn gist_heading(id: Seq<char>, description: Option<Seq<char>>) -> Seq<char> {
    "Gist "@ + id + ": "@ + match description {
        Some(d) => d,
        None => "(no description)"@,
    }
}

/// The line printed for a file: `{filename}: {content}`.
pub open spec fn file_listing(f: GistFileView) -> Seq<char> {
    f.filename + ": "@ + f.content
}

/// A file's printed line is its whole name, `: `, and its whole content,
/// to the end.
pub proof fn lemma_file_listing_whole(f: GistFileView)
    ensures
        file_listing(f).len() == f.filename.len() + 2 + f.content.len(),
        file_listing(f).take(f.filename.len() as int) == f.filename,
        file_listing(f).subrange(f.filename.len() as int, f.filename.len() as int + 2) == ": "@,
        file_listing(f).skip(f.filename.len() as int + 2) == f.content,
{
    reveal_strlit(": ");
    let l = file_listing(f);
    assert(l.take(f.filename.len() as int) =~= f.filename);
    assert(l.subrange(f.filename.len() as int, f.filename.len() as int + 2) =~= ": "@);
    assert(l.skip(f.filename.len() as int + 2) =~= f.content);
}

impl Gist {
    /// The heading printed for this gist, with `(no description)` when it
    /// has none.
    pub fn heading(&self) -> (r: String)
        ensures
            r@ == gist_heading(
                self.id@,
                match self.description {
                    Some(d) => Some(d@),
                    None => None,
                },
            ),
    {
        let mut r = String::from_str("Gist ");
        r.append(self.id.as_str());
        r.append(": ");
        match &self.description {
            Some(d) => r.append(d.as_str()),
            None => r.append("(no description)"),
        }
        r
    }
}

impl GistFile {
    /// The line printed for this file: its name and its content.
    pub fn listing(&self) -> (r: String)
        ensures
            r@ == file_listing(self@),
    {
        let mut r = String::from_str(self.filename.0.as_str());
        r.append(": ");
        r.append(self.content.0.as_str());
        r
    }
}

/// The token that the client sends: the given token, trimmed, unless
/// nothing is left of it; then the one from the environment, if any.
pub fn resolve_token(token: &str, env_token: Option<String>) -> (r: Option<String>)
    ensures
        trim(token@).len() > 0 ==> r is Some && r->0@ == trim(token@),
        trim(token@).len() == 0 ==> r == env_token,
{
    let t = trimmed(token);
    if t.as_str().unicode_len() > 0 {
        Some(t)
    } else {
        env_token
    }
}

/// The token that the client sends, taken as given: the given token unless
/// it is empty; then the one from the environment, if any.
pub fn resolve_token_verbatim(token: String, env_token: Option<String>) -> (r: Option<String>)
    ensures
        token@.len() > 0 ==> r == Some(token),
        token@.len() == 0 ==> r == env_token,
{
    if token.as_str().unicode_len() > 0 {
        Some(token)
    } else {
        env_token
    }
}

/// The address of a user's profile.
pub open spec fn user_address(user: Seq<char>) -> Seq<char> {
    "https://api.github.com/users/"@ + user
}

/// The address of a user's profile, which tells how many public gists the
/// user has.
pub fn user_url(user: &str) -> (r: String)
    ensures
        r@ == user_address(user@),
{
    let mut r = String::from_str("https://api.github.com/users/");
    r.append(user);
    r
}

/// The address of a user's gists, first page.
pub fn gists_url(user: &str) -> (r: String)
    ensures
        r@ == user_address(user@) + "/gists"@,
{
    let mut r = user_url(user);
    r.append("/gists");
    r
}

/// The message of a failed GitHub request.
pub fn api_failure_message(status: &str, body: &str) -> (r: String)
    ensures
        r@ == "GitHub API request failed with status "@ + status@ + ": "@ + body@,
{
    let mut r = String::from_str("GitHub API request failed with status ");
    r.append(status);
    r.append(": ");
    r.append(body);
    r
}

/// How many gists a page holds at most.
pub const PER_PAGE: usize = 100;

/// The two phases of loading gists.
#[derive(Debug, Clone, Copy, PartialEq, Eq, Structural)]
pub enum Phase {
    Gists,
    Files,
}

impl Phase {
    /// The name under which the phase is reported.
    pub fn name(&self) -> (r: &'static str)
        ensures
            *self == Phase::Gists ==> r@ == "gists"@,
            *self == Phase::Files ==> r@ == "files"@,
    {
        match self {
            Phase::Gists => "gists",
            Phase::Files => "files",
        }
    }
}

/// How far loading has come: `done` of `total` in a phase.
#[derive(Debug, Clone, Copy, PartialEq, Eq, Structural)]
pub struct LoadProgress {
    pub phase: Phase,
    pub done: usize,
    pub total: usize,
}

/// The larger of two counts.
pub open spec fn max(a: int, b: int) -> int {
    if a < b {
        b
    } else {
        a
    }
}

/// Where the paged listing of a user's gists stands: how many gists the
/// user has, how many have come so far, which page comes next, and whether
/// the listing is over.
#[derive(Debug)]
pub struct GistPaging {
    pub total_gists: usize,
    pub fetched: usize,
    pub page: u32,
    pub done: bool,
}

/// The address of one page of a user's gists.
pub open spec fn page_address(user: Seq<char>, page: nat) -> Seq<char> {
    user_address(user) + "/gists?per_page=100&page="@ + decimal(page)
}

impl GistPaging {
    /// The listing before the first page, for a user with `total_gists`
    /// public gists, and the progress reported then: none of at least one.
    pub fn start(total_gists: usize) -> (r: (GistPaging, LoadProgress))
        ensures
            r.0.total_gists == total_gists,
            r.0.fetched == 0,
            r.0.page == 1,
            !r.0.done,
            r.1 == (LoadProgress {
                phase: Phase::Gists,
                done: 0,
                total: max(total_gists as int, 1) as usize,
            }),
            r.1.done <= r.1.total,
    {
        let total = if total_gists < 1 {
            1
        } else {
            total_gists
        };
        (
            GistPaging { total_gists, fetched: 0, page: 1, done: false },
            LoadProgress { phase: Phase::Gists, done: 0, total },
        )
    }

    /// The address of the page that comes next.
    pub fn page_url(&self, user: &str) -> (r: String)
        ensures
            r@ == page_address(user@, self.page as nat),
    {
        let mut r = user_url(user);
        r.append("/gists?per_page=100&page=");
        let n = to_decimal(self.page as u64);
        r.append(n.as_str());
        r
    }

    /// Takes in a page that held `count` gists: they are counted, the
    /// listing is over when the page was not full, and the next page comes
    /// otherwise. Gives the progress to report: the gists so far of the
    /// larger of that and the user's count.
    pub fn record_page(&mut self, count: usize) -> (p: LoadProgress)
        requires
            !old(self).done,
            old(self).fetched + count <= usize::MAX,
            count >= PER_PAGE ==> old(self).page < u32::MAX,
        ensures
            final(self).total_gists == old(self).total_gists,
            final(self).fetched == old(self).fetched + count,
            final(self).done == (count < PER_PAGE),
            final(self).page == if count < PER_PAGE {
                old(self).page as int
            } else {
                old(self).page + 1
            },
            p == (LoadProgress {
                phase: Phase::Gists,
                done: final(self).fetched,
                total: max(final(self).fetched as int, final(self).total_gists as int) as usize,
            }),
            p.done <= p.total,
    {
        self.fetched = self.fetched + count;
        if count < PER_PAGE {
            self.done = true;
        } else {
            self.page = self.page + 1;
        }
        let total = if self.fetched < self.total_gists {
            self.total_gists
        } else {
            self.fetched
        };
        LoadProgress { phase: Phase::Gists, done: self.fetched, total }
    }
}

/// One file to download: the gist it belongs to (by position), its name
/// and its address.
#[derive(Debug)]
pub struct DownloadTask {
    pub gist_index: usize,
    pub filename: String,
    pub url: String,
}

/// A download task as plain values.
#[verifier::ext_equal]
pub struct DownloadTaskView {
    pub gist_index: int,
    pub filename: Seq<char>,
    pub url: Seq<char>,
}

impl View for DownloadTask {
    type V = DownloadTaskView;

    open spec fn view(&self) -> DownloadTaskView {
        DownloadTaskView {
            gist_index: self.gist_index as int,
            filename: self.filename@,
            url: self.url@,
        }
    }
}

/// The views of a list of download tasks.
pub open spec fn tasks_view(ts: Seq<DownloadTask>) -> Seq<DownloadTaskView> {
    ts.map_values(|t: DownloadTask| t@)
}

/// The download tasks for the files of the gist at `gi`, in order.
pub open spec fn file_tasks(gi: int, files: Seq<GistFileView>) -> Seq<DownloadTaskView> {
    files.map_values(
        |f: GistFileView| DownloadTaskView { gist_index: gi, filename: f.filename, url: f.raw_url },
    )
}

/// The download tasks for every file of every gist, gist by gist.
pub open spec fn all_tasks(gists: Seq<GistsView>) -> Seq<DownloadTaskView>
    decreases gists.len(),
{
    if gists.len() == 0 {
        seq![]
    } else {
        all_tasks(gists.drop_last()) + file_tasks(gists.len() - 1, gists.last().files)
    }
}

/// One task for every file of every gist: the gist's position, the file's
/// name and its raw address.
pub fn download_tasks(gists: &Vec<GistsInformation>) -> (r: Vec<DownloadTask>)
    ensures
        tasks_view(r@) == all_tasks(gists_view(gists@)),
{
    let ghost gv = gists_view(gists@);
    let mut out: Vec<DownloadTask> = Vec::new();
    let mut gi: usize = 0;
    assert(gv.take(0) =~= Seq::<GistsView>::empty());
    assert(tasks_view(out@) =~= Seq::<DownloadTaskView>::empty());
    while gi < gists.len()
        invariant
            gi <= gists.len(),
            gv == gists_view(gists@),
            tasks_view(out@) == all_tasks(gv.take(gi as int)),
        decreases gists.len() - gi,
    {
        let files = &gists[gi].files;
        let ghost fv = files_view(files@);
        assert(fv == gv[gi as int].files);
        let mut j: usize = 0;
        assert(fv.take(0) =~= Seq::<GistFileView>::empty());
        assert(file_tasks(gi as int, fv.take(0)) =~= Seq::<DownloadTaskView>::empty());
        assert(tasks_view(out@) =~= all_tasks(gv.take(gi as int)) + file_tasks(
            gi as int,
            fv.take(0),
        ));
        while j < files.len()
            invariant
                j <= files.len(),
                gi < gists.len(),
                fv == files_view(files@),
                tasks_view(out@) == all_tasks(gv.take(gi as int)) + file_tasks(
                    gi as int,
                    fv.take(j as int),
                ),
            decreases files.len() - j,
        {
            let f = &files[j].1;
            let t = DownloadTask {
                gist_index: gi,
                filename: f.filename.0.clone(),
                url: f.raw_url.0.clone(),
            };
            let ghost before = tasks_view(out@);
            out.push(t);
            proof {
                assert(tasks_view(out@) =~= before.push(t@));
                assert(fv[j as int] == f@);
                assert(file_tasks(gi as int, fv.take(j + 1)) =~= file_tasks(
                    gi as int,
                    fv.take(j as int),
                ).push(t@));
                assert(tasks_view(out@) =~= all_tasks(gv.take(gi as int)) + file_tasks(
                    gi as int,
                    fv.take(j + 1),
                ));
            }
            j = j + 1;
        }
        proof {
            assert(fv.take(j as int) =~= fv);
            let g2 = gv.take(gi + 1);
            assert(g2.drop_last() =~= gv.take(gi as int));
            assert(g2.last() == gv[gi as int]);
        }
        gi = gi + 1;
    }
    assert(gv.take(gi as int) =~= gv);
    out
}

/// The progress reported when the downloads begin: none of all files.
pub fn files_progress_start(total_files: usize) -> (r: LoadProgress)
    ensures
        r == (LoadProgress { phase: Phase::Files, done: 0, total: total_files }),
{
    LoadProgress { phase: Phase::Files, done: 0, total: total_files }
}

/// A downloaded file: the gist it belongs to (by position), its name and
/// its text.
#[derive(Debug)]
pub struct Downloaded {
    pub gist_index: usize,
    pub filename: String,
    pub text: String,
}

/// A downloaded file as plain values.
#[verifier::ext_equal]
pub struct DownloadedView {
    pub gist_index: int,
    pub filename: Seq<char>,
    pub text: Seq<char>,
}

impl View for Downloaded {
    type V = DownloadedView;

    open spec fn view(&self) -> DownloadedView {
        DownloadedView {
            gist_index: self.gist_index as int,
            filename: self.filename@,
            text: self.text@,
        }
    }
}

/// The views of a list of downloaded files.
pub open spec fn downloads_view(ds: Seq<Downloaded>) -> Seq<DownloadedView> {
    ds.map_values(|d: Downloaded| d@)
}

/// The files with the content of the one under the key `name` set to
/// `text`.
pub open spec fn with_content(
    keys: Seq<Seq<char>>,
    files: Seq<GistFileView>,
    name: Seq<char>,
    text: Seq<char>,
) -> Seq<GistFileView> {
    files.map(
        |j: int, f: GistFileView|
            if keys[j] == name {
                GistFileView { content: text, ..f }
            } else {
                f
            },
    )
}

/// The gists after the downloaded files are put in place, one after the
/// other.
pub open spec fn after_downloads(gists: Seq<GistsView>, ds: Seq<DownloadedView>) -> Seq<GistsView>
    decreases ds.len(),
{
    if ds.len() == 0 {
        gists
    } else {
        let g = after_downloads(gists, ds.drop_last());
        let d = ds.last();
        if 0 <= d.gist_index < g.len() {
            g.update(
                d.gist_index,
                GistsView {
                    files: with_content(g[d.gist_index].keys, g[d.gist_index].files, d.filename, d.text),
                    ..g[d.gist_index]
                },
            )
        } else {
            g
        }
    }
}

/// No two files of a gist are under the same key: the listing gives a
/// gist's files as a map.
pub open spec fn distinct_keys(keys: Seq<Seq<char>>) -> bool {
    forall|i: int, j: int|
        0 <= i < keys.len() && 0 <= j < keys.len() && i != j ==> #[trigger] keys[i] != #[trigger] keys[j]
}

/// Within every gist, no two files are under the same key.
pub open spec fn keys_distinct(gists: Seq<GistsView>) -> bool {
    forall|gi: int| 0 <= gi < gists.len() ==> distinct_keys(#[trigger] gists[gi].keys)
}

/// Every file of the gist is under its own name, as GitHub lists them.
pub open spec fn keyed_by_name(g: GistsView) -> bool {
    &&& g.keys.len() == g.files.len()
    &&& forall|j: int| 0 <= j < g.files.len() ==> (#[trigger] g.files[j]).filename == g.keys[j]
}

impl GistsInformation {
    /// Puts `text` in as the content of the file under the key `name`.
    pub fn set_content(&mut self, name: &String, text: &String)
        ensures
            final(self)@ == (GistsView {
                files: with_content(old(self)@.keys, old(self)@.files, name@, text@),
                ..old(self)@
            }),
            distinct_keys(old(self)@.keys) ==> distinct_keys(final(self)@.keys),
            keyed_by_name(old(self)@) ==> keyed_by_name(final(self)@),
    {
        let ghost old_files = files_view(self.files@);
        let ghost old_keys = keys_view(self.files@);
        let ghost target = with_content(old_keys, old_files, name@, text@);
        let mut j: usize = 0;
        while j < self.files.len()
            invariant
                j <= self.files.len(),
                self.files.len() == old_files.len(),
                self.html_url@ == old(self).html_url@,
                old_files == files_view(old(self).files@),
                old_keys == keys_view(old(self).files@),
                target == with_content(old_keys, old_files, name@, text@),
                forall|k: int| 0 <= k < self.files.len() ==> (#[trigger] self.files@[k]).0 == old(self).files@[k].0,
                forall|k: int| 0 <= k < j ==> (#[trigger] self.files@[k]).1@ == target[k],
                forall|k: int| j <= k < self.files.len() ==> (#[trigger] self.files@[k]).1@ == old_files[k],
            decreases self.files.len() - j,
        {
            let ghost pre = self.files@;
            assert(pre[j as int].1@ == old_files[j as int]);
            assert(old_keys[j as int] == pre[j as int].0.0@);
            if self.files[j].0.0 == *name {
                self.files[j].1.content = Content(text.clone());
                proof {
                    assert forall|k: int| 0 <= k < self.files.len() && k != j implies self.files@[k]
                        == pre[k] by {}
                    assert(self.files@[j as int].1@ =~= target[j as int]);
                }
            } else {
                assert(self.files@[j as int].1@ == target[j as int]);
            }
            j = j + 1;
        }
        assert(files_view(self.files@) =~= with_content(old_keys, old_files, name@, text@));
        assert(keys_view(self.files@) =~= old_keys);
    }
}

/// Puts every downloaded file in place, in order: the file under that
/// name's key in the gist at its position gets the downloaded text as its
/// content.
pub fn apply_downloads(gists: &mut Vec<GistsInformation>, downloads: &Vec<Downloaded>)
    requires
        forall|i: int| 0 <= i < downloads.len() ==> #[trigger] downloads@[i].gist_index < old(gists).len(),
    ensures
        gists_view(final(gists)@) == after_downloads(gists_view(old(gists)@), downloads_view(downloads@)),
        keys_distinct(gists_view(old(gists)@)) ==> keys_distinct(gists_view(final(gists)@)),
        forall|gi: int|
            0 <= gi < old(gists).len() && keyed_by_name(#[trigger] gists_view(old(gists)@)[gi])
                ==> keyed_by_name(gists_view(final(gists)@)[gi]),
{
    let ghost start = gists_view(gists@);
    let ghost dv = downloads_view(downloads@);
    let mut i: usize = 0;
    assert(dv.take(0) =~= Seq::<DownloadedView>::empty());
    while i < downloads.len()
        invariant
            i <= downloads.len(),
            dv == downloads_view(downloads@),
            gists.len() == start.len(),
            forall|k: int| 0 <= k < downloads.len() ==> #[trigger] downloads@[k].gist_index < start.len(),
            gists_view(gists@) == after_downloads(start, dv.take(i as int)),
        decreases downloads.len() - i,
    {
        let d = &downloads[i];
        let gi = d.gist_index;
        let ghost before = gists_view(gists@);
        gists[gi].set_content(&d.filename, &d.text);
        proof {
            let ds2 = dv.take(i + 1);
            assert(ds2.drop_last() =~= dv.take(i as int));
            assert(ds2.last() == d@);
            assert(gists_view(gists@) =~= before.update(
                gi as int,
                GistsView {
                    files: with_content(before[gi as int].keys, before[gi as int].files, d.filename@, d.text@),
                    ..before[gi as int]
                },
            ));
        }
        i = i + 1;
    }
    assert(dv.take(i as int) =~= dv);
    proof {
        lemma_downloads_fill(start, dv);
        let a = after_downloads(start, dv);
        assert forall|gi: int|
            0 <= gi < start.len() && keyed_by_name(#[trigger] start[gi]) implies keyed_by_name(a[gi]) by {
            assert forall|j: int| 0 <= j < a[gi].files.len() implies (#[trigger] a[gi].files[j]).filename
                == a[gi].keys[j] by {
                assert(a[gi].files[j].filename == start[gi].files[j].filename);
            }
        }
        if keys_distinct(start) {
            assert forall|gi: int| 0 <= gi < a.len() implies distinct_keys(#[trigger] a[gi].keys) by {
                assert(a[gi].keys == start[gi].keys);
            }
        }
    }
}

/// The text of the last download in `ds` named `name` for the gist at
/// `gi`, if any.
pub open spec fn last_text(ds: Seq<DownloadedView>, gi: int, name: Seq<char>) -> Option<Seq<char>>
    decreases ds.len(),
{
    if ds.len() == 0 {
        None
    } else if ds.last().gist_index == gi && ds.last().filename == name {
        Some(ds.last().text)
    } else {
        last_text(ds.drop_last(), gi, name)
    }
}

/// Putting downloads in place changes nothing but contents: every file
/// keeps its gist, its place, its key, its name and its address, and its
/// content is the text of the last download named as its key, or what it
/// was when there is none.
pub proof fn lemma_downloads_fill(gists: Seq<GistsView>, ds: Seq<DownloadedView>)
    ensures
        after_downloads(gists, ds).len() == gists.len(),
        forall|gi: int|
            0 <= gi < gists.len() ==> {
                let a = #[trigger] after_downloads(gists, ds)[gi];
                &&& a.html_url == gists[gi].html_url
                &&& a.keys == gists[gi].keys
                &&& a.files.len() == gists[gi].files.len()
                &&& forall|j: int|
                    0 <= j < a.files.len() ==> {
                        let f = gists[gi].files[j];
                        &&& (#[trigger] a.files[j]).filename == f.filename
                        &&& a.files[j].raw_url == f.raw_url
                        &&& a.files[j].content == match last_text(ds, gi, gists[gi].keys[j]) {
                            Some(t) => t,
                            None => f.content,
                        }
                    }
            },
    decreases ds.len(),
{
    if ds.len() > 0 {
        let ds2 = ds.drop_last();
        lemma_downloads_fill(gists, ds2);
        let g = after_downloads(gists, ds2);
        let d = ds.last();
        assert forall|gi: int| 0 <= gi < gists.len() implies {
            let a = #[trigger] after_downloads(gists, ds)[gi];
            &&& a.html_url == gists[gi].html_url
            &&& a.keys == gists[gi].keys
            &&& a.files.len() == gists[gi].files.len()
            &&& forall|j: int|
                0 <= j < a.files.len() ==> {
                    let f = gists[gi].files[j];
                    &&& (#[trigger] a.files[j]).filename == f.filename
                    &&& a.files[j].raw_url == f.raw_url
                    &&& a.files[j].content == match last_text(ds, gi, gists[gi].keys[j]) {
                        Some(t) => t,
                        None => f.content,
                    }
                }
        } by {
            let a = after_downloads(gists, ds)[gi];
            let b = g[gi];
            if d.gist_index == gi {
                assert forall|j: int| 0 <= j < a.files.len() implies {
                    let f = gists[gi].files[j];
                    &&& (#[trigger] a.files[j]).filename == f.filename
                    &&& a.files[j].raw_url == f.raw_url
                    &&& a.files[j].content == match last_text(ds, gi, gists[gi].keys[j]) {
                        Some(t) => t,
                        None => f.content,
                    }
                } by {
                    assert(b.files[j].filename == gists[gi].files[j].filename);
                }
            } else {
                assert(a == b);
                assert forall|j: int| 0 <= j < a.files.len() implies {
                    let f = gists[gi].files[j];
                    &&& (#[trigger] a.files[j]).filename == f.filename
                    &&& a.files[j].raw_url == f.raw_url
                    &&& a.files[j].content == match last_text(ds, gi, gists[gi].keys[j]) {
                        Some(t) => t,
                        None => f.content,
                    }
                } by {
                    assert(b.files[j].filename == gists[gi].files[j].filename);
                }
            }
        }
    }
}

/// No two downloads are for the same file of the same gist.
pub open spec fn distinct_downloads(ds: Seq<DownloadedView>) -> bool {
    forall|i: int, j: int|
        0 <= i < ds.len() && 0 <= j < ds.len() && i != j ==> !((#[trigger] ds[i]).gist_index
            == (#[trigger] ds[j]).gist_index && ds[i].filename == ds[j].filename)
}

proof fn lemma_last_text_found(ds: Seq<DownloadedView>, gi: int, name: Seq<char>)
    ensures
        last_text(ds, gi, name) matches Some(t) ==> ds.contains(
            DownloadedView { gist_index: gi, filename: name, text: t },
        ),
    decreases ds.len(),
{
    if ds.len() > 0 {
        let d2 = ds.drop_last();
        lemma_last_text_found(d2, gi, name);
        if ds.last().gist_index == gi && ds.last().filename == name {
            assert(ds[ds.len() - 1] == ds.last());
        } else if let Some(t) = last_text(d2, gi, name) {
            let k = choose|k: int|
                0 <= k < d2.len() && d2[k] == DownloadedView { gist_index: gi, filename: name, text: t };
            assert(ds[k] == d2[k]);
        }
    }
}

proof fn lemma_last_text_of_contained(ds: Seq<DownloadedView>, d: DownloadedView)
    requires
        distinct_downloads(ds),
        ds.contains(d),
    ensures
        last_text(ds, d.gist_index, d.filename) == Some(d.text),
    decreases ds.len(),
{
    let d2 = ds.drop_last();
    let k = choose|k: int| 0 <= k < ds.len() && ds[k] == d;
    let n = ds.len() - 1;
    if ds.last().gist_index == d.gist_index && ds.last().filename == d.filename {
        if k != n {
            assert(ds[n] == ds.last());
            assert(!(ds[k].gist_index == ds[n].gist_index && ds[k].filename == ds[n].filename));
        }
    } else {
        assert(k != n);
        assert(d2[k] == d);
        assert(distinct_downloads(d2)) by {
            assert forall|i: int, j: int|
                0 <= i < d2.len() && 0 <= j < d2.len() && i != j implies !((#[trigger] d2[i]).gist_index
                == (#[trigger] d2[j]).gist_index && d2[i].filename == d2[j].filename) by {
                assert(d2[i] == ds[i] && d2[j] == ds[j]);
            }
        }
        lemma_last_text_of_contained(d2, d);
    }
}

proof fn lemma_last_text_same(
    ds1: Seq<DownloadedView>,
    ds2: Seq<DownloadedView>,
    gi: int,
    name: Seq<char>,
)
    requires
        distinct_downloads(ds1),
        distinct_downloads(ds2),
        forall|d: DownloadedView| ds1.contains(d) <==> ds2.contains(d),
    ensures
        last_text(ds1, gi, name) == last_text(ds2, gi, name),
{
    lemma_last_text_found(ds1, gi, name);
    lemma_last_text_found(ds2, gi, name);
    if let Some(t) = last_text(ds1, gi, name) {
        let d = DownloadedView { gist_index: gi, filename: name, text: t };
        assert(ds2.contains(d));
        lemma_last_text_of_contained(ds2, d);
    } else if let Some(t) = last_text(ds2, gi, name) {
        let d = DownloadedView { gist_index: gi, filename: name, text: t };
        assert(ds1.contains(d));
        lemma_last_text_of_contained(ds1, d);
    }
}

/// The order in which downloads are put in place does not matter, as long
/// as no file is downloaded twice: the same downloads in any order give
/// the same gists.
pub proof fn lemma_download_order_irrelevant(
    gists: Seq<GistsView>,
    ds1: Seq<DownloadedView>,
    ds2: Seq<DownloadedView>,
)
    requires
        distinct_downloads(ds1),
        distinct_downloads(ds2),
        forall|d: DownloadedView| ds1.contains(d) <==> ds2.contains(d),
    ensures
        after_downloads(gists, ds1) == after_downloads(gists, ds2),
{
    lemma_downloads_fill(gists, ds1);
    lemma_downloads_fill(gists, ds2);
    let a1 = after_downloads(gists, ds1);
    let a2 = after_downloads(gists, ds2);
    assert forall|gi: int| 0 <= gi < gists.len() implies a1[gi] == a2[gi] by {
        assert forall|j: int| 0 <= j < a1[gi].files.len() implies a1[gi].files[j] == a2[gi].files[j] by {
            lemma_last_text_same(ds1, ds2, gi, gists[gi].keys[j]);
        }
        assert(a1[gi].files =~= a2[gi].files);
    }
    assert(a1 =~= a2);
}

/// The download tasks name every file of every gist, with its gist's
/// position, its name and its address, and nothing else.
pub proof fn lemma_tasks_cover(gists: Seq<GistsView>)
    ensures
        forall|gi: int, j: int|
            0 <= gi < gists.len() && 0 <= j < gists[gi].files.len() ==> all_tasks(gists).contains(
                DownloadTaskView {
                    gist_index: gi,
                    filename: (#[trigger] gists[gi].files[j]).filename,
                    url: gists[gi].files[j].raw_url,
                },
            ),
        forall|k: int|
            0 <= k < all_tasks(gists).len() ==> {
                let t = #[trigger] all_tasks(gists)[k];
                &&& 0 <= t.gist_index < gists.len()
                &&& exists|j: int|
                    0 <= j < gists[t.gist_index].files.len() && t.filename
                        == #[trigger] gists[t.gist_index].files[j].filename && t.url
                        == gists[t.gist_index].files[j].raw_url
            },
    decreases gists.len(),
{
    if gists.len() > 0 {
        let g2 = gists.drop_last();
        lemma_tasks_cover(g2);
        let last = gists.len() - 1;
        let ft = file_tasks(last, gists.last().files);
        let prev = all_tasks(g2);
        assert(all_tasks(gists) == prev + ft);
        assert forall|gi: int, j: int|
            0 <= gi < gists.len() && 0 <= j < gists[gi].files.len() implies all_tasks(
            gists,
        ).contains(
            DownloadTaskView {
                gist_index: gi,
                filename: (#[trigger] gists[gi].files[j]).filename,
                url: gists[gi].files[j].raw_url,
            },
        ) by {
            let t = DownloadTaskView {
                gist_index: gi,
                filename: gists[gi].files[j].filename,
                url: gists[gi].files[j].raw_url,
            };
            if gi < last {
                assert(g2[gi] == gists[gi]);
                assert(g2[gi].files[j] == gists[gi].files[j]);
                let k = choose|k: int| 0 <= k < prev.len() && prev[k] == t;
                assert((prev + ft)[k] == t);
            } else {
                assert(ft[j] == t);
                assert((prev + ft)[prev.len() + j] == t);
            }
        }
        assert forall|k: int| 0 <= k < all_tasks(gists).len() implies {
            let t = #[trigger] all_tasks(gists)[k];
            &&& 0 <= t.gist_index < gists.len()
            &&& exists|j: int|
                0 <= j < gists[t.gist_index].files.len() && t.filename
                    == #[trigger] gists[t.gist_index].files[j].filename && t.url
                    == gists[t.gist_index].files[j].raw_url
        } by {
            let t = all_tasks(gists)[k];
            if k < prev.len() {
                assert(t == prev[k]);
                let j = choose|j: int|
                    0 <= j < g2[t.gist_index].files.len() && t.filename
                        == #[trigger] g2[t.gist_index].files[j].filename && t.url
                        == g2[t.gist_index].files[j].raw_url;
                assert(g2[t.gist_index] == gists[t.gist_index]);
                assert(gists[t.gist_index].files[j].filename == t.filename);
            } else {
                let j = k - prev.len();
                assert(t == ft[j]);
                assert(gists[last].files[j].filename == t.filename);
            }
        }
    }
}

} // verus!

//! The contents of the loaded files, kept by gist page and file name until
//! a summary of one is asked for, and the prompts that ask for it.

use vstd::prelude::*;
use crate::github::{
    distinct_keys, files_view, gists_view, keyed_by_name, keys_distinct, GistFileView, GistsInformation,
    GistsView,
};
use crate::text::{trim, trimmed};

verus! {

/// The key under which a file's content is kept: the gist's page, a NUL
/// character, and the file's name.
pub open spec fn key_of(gist_url: Seq<char>, filename: Seq<char>) -> Seq<char> {
    gist_url + seq!['\0'] + filename
}

/// The key under which a file's content is kept.
pub fn content_key(gist_url: &str, filename: &str) -> (r: String)
    ensures
        r@ == key_of(gist_url@, filename@),
{
    proof {
        reveal_strlit("\0");
    }
    let mut r = String::from_str(gist_url);
    r.append("\0");
    r.append(filename);
    r
}

/// The map that results from putting the pairs in, in order: a later pair
/// replaces an earlier one with the same key.
pub open spec fn map_of(es: Seq<(Seq<char>, Seq<char>)>) -> Map<Seq<char>, Seq<char>>
    decreases es.len(),
{
    if es.len() == 0 {
        Map::empty()
    } else {
        map_of(es.drop_last()).insert(es.last().0, es.last().1)
    }
}

/// The views of a list of key and content pairs.
pub open spec fn pairs_view(es: Seq<(String, String)>) -> Seq<(Seq<char>, Seq<char>)> {
    es.map_values(|e: (String, String)| (e.0@, e.1@))
}

/// File contents by key, as a map from key to content.
pub struct ContentCache {
    entries: Vec<(String, String)>,
}

impl View for ContentCache {
    type V = Map<Seq<char>, Seq<char>>;

    closed spec fn view(&self) -> Map<Seq<char>, Seq<char>> {
        map_of(pairs_view(self.entries@))
    }
}

/// A row of the file list: a file's name and its gist's page.
#[derive(Debug)]
pub struct GistFileRow {
    pub filename: String,
    pub gist_url: String,
}

/// A row of the file list as plain text.
#[verifier::ext_equal]
pub struct GistFileRowView {
    pub filename: Seq<char>,
    pub gist_url: Seq<char>,
}

impl View for GistFileRow {
    type V = GistFileRowView;

    open spec fn view(&self) -> GistFileRowView {
        GistFileRowView { filename: self.filename@, gist_url: self.gist_url@ }
    }
}

/// The views of a list of rows.
pub open spec fn rows_view(rows: Seq<GistFileRow>) -> Seq<GistFileRowView> {
    rows.map_values(|r: GistFileRow| r@)
}

/// The files of one gist, each with the gist's page.
pub open spec fn listed_in(url: Seq<char>, files: Seq<GistFileView>) -> Seq<
    (Seq<char>, GistFileView),
> {
    files.map_values(|f: GistFileView| (url, f))
}

/// Every file of every gist, gist by gist, each with its gist's page.
pub open spec fn listed_files(gists: Seq<GistsView>) -> Seq<(Seq<char>, GistFileView)>
    decreases gists.len(),
{
    if gists.len() == 0 {
        seq![]
    } else {
        listed_files(gists.drop_last()) + listed_in(gists.last().html_url, gists.last().files)
    }
}

/// The row of a listed file.
pub open spec fn row_of(p: (Seq<char>, GistFileView)) -> GistFileRowView {
    GistFileRowView { filename: p.1.filename, gist_url: p.0 }
}

/// The key and content of a listed file.
pub open spec fn entry_of(p: (Seq<char>, GistFileView)) -> (Seq<char>, Seq<char>) {
    (key_of(p.0, p.1.filename), p.1.content)
}

/// The rows of the file list for these gists.
pub open spec fn rows_of(gists: Seq<GistsView>) -> Seq<GistFileRowView> {
    listed_files(gists).map_values(|p: (Seq<char>, GistFileView)| row_of(p))
}

/// The cache filled from these gists.
pub open spec fn cache_of(gists: Seq<GistsView>) -> Map<Seq<char>, Seq<char>> {
    map_of(listed_files(gists).map_values(|p: (Seq<char>, GistFileView)| entry_of(p)))
}

/// The prompt that asks for a one-sentence summary of a file.
pub open spec fn summary_prompt_text(filename: Seq<char>, content: Seq<char>) -> Seq<char> {
    "Below is the content of a file called '"@ + filename + "'.\n\n<file>\n"@ + content
        + "\n</file>\n\nWrite exactly ONE short sentence summarising what this file does. Do not repeat the code. Do not use more than 30 words."@
}

/// The error given when a file's content is not in the cache.
pub open spec fn missing_content_text(filename: Seq<char>) -> Seq<char> {
    "no cached content for "@ + filename
}

/// The shorter prompt that asks for a one-sentence summary of a file.
pub open spec fn quick_prompt_text(filename: Seq<char>, content: Seq<char>) -> Seq<char> {
    "Summarise the following file ('"@ + filename + "') in one sentence:\n\n"@ + content
}

proof fn lemma_map_of_push(es: Seq<(Seq<char>, Seq<char>)>, e: (Seq<char>, Seq<char>))
    ensures
        map_of(es.push(e)) == map_of(es).insert(e.0, e.1),
{
    assert(es.push(e).drop_last() =~= es);
}

impl ContentCache {
    /// An empty cache.
    pub fn new() -> (r: ContentCache)
        ensures
            r@ == Map::<Seq<char>, Seq<char>>::empty(),
    {
        let r = ContentCache { entries: Vec::new() };
        assert(pairs_view(r.entries@) =~= Seq::<(Seq<char>, Seq<char>)>::empty());
        r
    }

    /// Forgets every content.
    pub fn clear(&mut self)
        ensures
            final(self)@ == Map::<Seq<char>, Seq<char>>::empty(),
    {
        self.entries = Vec::new();
        assert(pairs_view(self.entries@) =~= Seq::<(Seq<char>, Seq<char>)>::empty());
    }

    /// Keeps `content` under `key`, in place of what was kept there.
    pub fn insert(&mut self, key: String, content: String)
        ensures
            final(self)@ == old(self)@.insert(key@, content@),
    {
        let ghost before = pairs_view(self.entries@);
        let ghost e = (key@, content@);
        self.entries.push((key, content));
        assert(pairs_view(self.entries@) =~= before.push(e));
        proof {
            lemma_map_of_push(before, e);
        }
    }

    /// The content kept under `key`, if any.
    pub fn get(&self, key: &String) -> (r: Option<String>)
        ensures
            r is Some <==> self@.contains_key(key@),
            r matches Some(v) ==> v@ == self@[key@],
    {
        let ghost es = pairs_view(self.entries@);
        let mut i = self.entries.len();
        assert(es.take(i as int) =~= es);
        while i > 0
            invariant
                i <= self.entries.len(),
                es == pairs_view(self.entries@),
                self@ == map_of(es),
                map_of(es).contains_key(key@) <==> map_of(es.take(i as int)).contains_key(key@),
                map_of(es).contains_key(key@) ==> map_of(es)[key@] == map_of(
                    es.take(i as int),
                )[key@],
            decreases i,
        {
            let ghost pre = es.take(i as int);
            assert(pre.drop_last() =~= es.take(i - 1));
            assert(pre.last() == es[i - 1]);
            if self.entries[i - 1].0 == *key {
                return Some(self.entries[i - 1].1.clone());
            }
            i = i - 1;
        }
        assert(es.take(0) =~= Seq::<(Seq<char>, Seq<char>)>::empty());
        None
    }

    /// Forgets every content and keeps that of every file of every gist
    /// instead, under its gist's page and name; gives the rows of the file
    /// list, one per file, gist by gist.
    pub fn reload(&mut self, gists: &Vec<GistsInformation>) -> (rows: Vec<GistFileRow>)
        ensures
            final(self)@ == cache_of(gists_view(gists@)),
            rows_view(rows@) == rows_of(gists_view(gists@)),
    {
        let ghost gv = gists_view(gists@);
        self.clear();
        let mut rows: Vec<GistFileRow> = Vec::new();
        let mut gi: usize = 0;
        assert(gv.take(0) =~= Seq::<GistsView>::empty());
        assert(rows_view(rows@) =~= Seq::<GistFileRowView>::empty());
        while gi < gists.len()
            invariant
                gi <= gists.len(),
                gv == gists_view(gists@),
                self@ == map_of(
                    listed_files(gv.take(gi as int)).map_values(
                        |p: (Seq<char>, GistFileView)| entry_of(p),
                    ),
                ),
                rows_view(rows@) == listed_files(gv.take(gi as int)).map_values(
                    |p: (Seq<char>, GistFileView)| row_of(p),
                ),
            decreases gists.len() - gi,
        {
            let g = &gists[gi];
            let ghost fv = files_view(g.files@);
            let ghost url = g.html_url@;
            let ghost done = listed_files(gv.take(gi as int));
            assert(gv[gi as int] == g@);
            let mut j: usize = 0;
            assert(listed_in(url, fv.take(0)) =~= Seq::<(Seq<char>, GistFileView)>::empty());
            assert(done + listed_in(url, fv.take(0)) =~= done);
            while j < g.files.len()
                invariant
                    j <= g.files.len(),
                    gi < gists.len(),
                    g == &gists[gi as int],
                    fv == files_view(g.files@),
                    url == g.html_url@,
                    self@ == map_of(
                        (done + listed_in(url, fv.take(j as int))).map_values(
                            |p: (Seq<char>, GistFileView)| entry_of(p),
                        ),
                    ),
                    rows_view(rows@) == (done + listed_in(url, fv.take(j as int))).map_values(
                        |p: (Seq<char>, GistFileView)| row_of(p),
                    ),
                decreases g.files.len() - j,
            {
                let f = &g.files[j].1;
                let ghost p = (url, f@);
                let ghost before = done + listed_in(url, fv.take(j as int));
                let ghost after = done + listed_in(url, fv.take(j + 1));
                assert(fv[j as int] == f@);
                assert(after =~= before.push(p));
                let key = crate::cache::content_key(g.html_url.as_str(), f.filename.0.as_str());
                self.insert(key, f.content.0.clone());
                let ghost rows_before = rows_view(rows@);
                rows.push(GistFileRow { filename: f.filename.0.clone(), gist_url: g.html_url.clone() });
                proof {
                    let em = |q: (Seq<char>, GistFileView)| entry_of(q);
                    let rm = |q: (Seq<char>, GistFileView)| row_of(q);
                    assert(after.map_values(em) =~= before.map_values(em).push(entry_of(p)));
                    lemma_map_of_push(before.map_values(em), entry_of(p));
                    assert(rows_view(rows@) =~= rows_before.push(row_of(p)));
                    assert(after.map_values(rm) =~= before.map_values(rm).push(row_of(p)));
                }
                j = j + 1;
            }
            proof {
                assert(fv.take(j as int) =~= fv);
                let g2 = gv.take(gi + 1);
                assert(g2.drop_last() =~= gv.take(gi as int));
                assert(g2.last() == gv[gi as int]);
            }
            gi = gi + 1;
        }
        assert(gv.take(gi as int) =~= gv);
        rows
    }

    /// The prompt that asks for a summary of the file named `filename` of
    /// the gist at `gist_url`, or, when its content is not kept, the error
    /// `no cached content for {filename}`.
    pub fn summary_prompt(&self, gist_url: &str, filename: &str) -> (r: Result<String, String>)
        ensures
            self@.contains_key(key_of(gist_url@, filename@)) ==> (r matches Ok(p) && p@
                == summary_prompt_text(filename@, self@[key_of(gist_url@, filename@)])),
            !self@.contains_key(key_of(gist_url@, filename@)) ==> (r matches Err(e) && e@
                == missing_content_text(filename@)),
    {
        let key = content_key(gist_url, filename);
        match self.get(&key) {
            Some(content) => Ok(summary_prompt(filename, content.as_str())),
            None => {
                let mut e = String::from_str("no cached content for ");
                e.append(filename);
                Err(e)
            },
        }
    }
}

/// A row of the file list that carries the file's content along.
#[derive(Debug)]
pub struct GistFileContentRow {
    pub filename: String,
    pub gist_url: String,
    pub content: String,
}

/// A row with content as plain text.
#[verifier::ext_equal]
pub struct GistFileContentRowView {
    pub filename: Seq<char>,
    pub gist_url: Seq<char>,
    pub content: Seq<char>,
}

impl View for GistFileContentRow {
    type V = GistFileContentRowView;

    open spec fn view(&self) -> GistFileContentRowView {
        GistFileContentRowView {
            filename: self.filename@,
            gist_url: self.gist_url@,
            content: self.content@,
        }
    }
}

/// The row with content of a listed file.
pub open spec fn content_row_of(p: (Seq<char>, GistFileView)) -> GistFileContentRowView {
    GistFileContentRowView { filename: p.1.filename, gist_url: p.0, content: p.1.content }
}

/// The views of a list of rows with content.
pub open spec fn content_rows_view(rows: Seq<GistFileContentRow>) -> Seq<GistFileContentRowView> {
    rows.map_values(|r: GistFileContentRow| r@)
}

/// One row per file of every gist, gist by gist, with the file's name, its
/// gist's page and its content.
pub fn content_rows(gists: &Vec<GistsInformation>) -> (rows: Vec<GistFileContentRow>)
    ensures
        content_rows_view(rows@) == listed_files(gists_view(gists@)).map_values(
            |p: (Seq<char>, GistFileView)| content_row_of(p),
        ),
{
    let ghost gv = gists_view(gists@);
    let mut rows: Vec<GistFileContentRow> = Vec::new();
    let mut gi: usize = 0;
    assert(gv.take(0) =~= Seq::<GistsView>::empty());
    assert(content_rows_view(rows@) =~= Seq::<GistFileContentRowView>::empty());
    while gi < gists.len()
        invariant
            gi <= gists.len(),
            gv == gists_view(gists@),
            content_rows_view(rows@) == listed_files(gv.take(gi as int)).map_values(
                |p: (Seq<char>, GistFileView)| content_row_of(p),
            ),
        decreases gists.len() - gi,
    {
        let g = &gists[gi];
        let ghost fv = files_view(g.files@);
        let ghost url = g.html_url@;
        let ghost done = listed_files(gv.take(gi as int));
        assert(gv[gi as int] == g@);
        let mut j: usize = 0;
        assert(listed_in(url, fv.take(0)) =~= Seq::<(Seq<char>, GistFileView)>::empty());
        assert(done + listed_in(url, fv.take(0)) =~= done);
        while j < g.files.len()
            invariant
                j <= g.files.len(),
                gi < gists.len(),
                g == &gists[gi as int],
                fv == files_view(g.files@),
                url == g.html_url@,
                content_rows_view(rows@) == (done + listed_in(url, fv.take(j as int))).map_values(
                    |p: (Seq<char>, GistFileView)| content_row_of(p),
                ),
            decreases g.files.len() - j,
        {
            let f = &g.files[j].1;
            let ghost p = (url, f@);
            let ghost before = done + listed_in(url, fv.take(j as int));
            let ghost after = done + listed_in(url, fv.take(j + 1));
            assert(fv[j as int] == f@);
            assert(after =~= before.push(p));
            let ghost rows_before = content_rows_view(rows@);
            rows.push(
                GistFileContentRow {
                    filename: f.filename.0.clone(),
                    gist_url: g.html_url.clone(),
                    content: f.content.0.clone(),
                },
            );
            proof {
                let rm = |q: (Seq<char>, GistFileView)| content_row_of(q);
                assert(content_rows_view(rows@) =~= rows_before.push(content_row_of(p)));
                assert(after.map_values(rm) =~= before.map_values(rm).push(content_row_of(p)));
            }
            j = j + 1;
        }
        proof {
            assert(fv.take(j as int) =~= fv);
            let g2 = gv.take(gi + 1);
            assert(g2.drop_last() =~= gv.take(gi as int));
            assert(g2.last() == gv[gi as int]);
        }
        gi = gi + 1;
    }
    assert(gv.take(gi as int) =~= gv);
    rows
}

/// The prompt that asks for a one-sentence summary of `content`, the
/// content of the file named `filename`.
pub fn summary_prompt(filename: &str, content: &str) -> (r: String)
    ensures
        r@ == summary_prompt_text(filename@, content@),
{
    let mut r = String::from_str("Below is the content of a file called '");
    r.append(filename);
    r.append("'.\n\n<file>\n");
    r.append(content);
    r.append(
        "\n</file>\n\nWrite exactly ONE short sentence summarising what this file does. Do not repeat the code. Do not use more than 30 words.",
    );
    r
}

/// The shorter prompt that asks for a one-sentence summary of `content`,
/// the content of the file named `filename`.
pub fn quick_prompt(filename: &str, content: &str) -> (r: String)
    ensures
        r@ == quick_prompt_text(filename@, content@),
{
    let mut r = String::from_str("Summarise the following file ('");
    r.append(filename);
    r.append("') in one sentence:\n\n");
    r.append(content);
    r
}

/// The summary as shown: the model's answer without leading and trailing
/// whitespace.
pub fn clean_summary(answer: &str) -> (r: String)
    ensures
        r@ == trim(answer@),
{
    trimmed(answer)
}


proof fn lemma_map_of_keys(es: Seq<(Seq<char>, Seq<char>)>, k: Seq<char>)
    ensures
        map_of(es).contains_key(k) <==> exists|i: int| 0 <= i < es.len() && (#[trigger] es[i]).0 == k,
    decreases es.len(),
{
    if es.len() > 0 {
        let es2 = es.drop_last();
        lemma_map_of_keys(es2, k);
        if exists|i: int| 0 <= i < es2.len() && (#[trigger] es2[i]).0 == k {
            let i = choose|i: int| 0 <= i < es2.len() && (#[trigger] es2[i]).0 == k;
            assert(es[i] == es2[i]);
        }
        if exists|i: int| 0 <= i < es.len() && (#[trigger] es[i]).0 == k {
            let i = choose|i: int| 0 <= i < es.len() && (#[trigger] es[i]).0 == k;
            if i < es2.len() {
                assert(es2[i] == es[i]);
            }
        }
    }
}

proof fn lemma_map_of_value(es: Seq<(Seq<char>, Seq<char>)>, k: Seq<char>, v: Seq<char>)
    requires
        map_of(es).contains_key(k),
        forall|i: int| 0 <= i < es.len() && (#[trigger] es[i]).0 == k ==> es[i].1 == v,
    ensures
        map_of(es)[k] == v,
    decreases es.len(),
{
    let es2 = es.drop_last();
    if es.last().0 != k {
        assert(forall|i: int| 0 <= i < es2.len() ==> es2[i] == es[i]);
        lemma_map_of_value(es2, k, v);
    }
}

proof fn lemma_listed_cover(gists: Seq<GistsView>)
    ensures
        forall|gi: int, j: int|
            0 <= gi < gists.len() && 0 <= j < gists[gi].files.len() ==> listed_files(
                gists,
            ).contains((gists[gi].html_url, #[trigger] gists[gi].files[j])),
    decreases gists.len(),
{
    if gists.len() > 0 {
        let g2 = gists.drop_last();
        lemma_listed_cover(g2);
        let last = gists.len() - 1;
        let li = listed_in(gists.last().html_url, gists.last().files);
        let prev = listed_files(g2);
        assert(listed_files(gists) == prev + li);
        assert forall|gi: int, j: int|
            0 <= gi < gists.len() && 0 <= j < gists[gi].files.len() implies listed_files(
            gists,
        ).contains((gists[gi].html_url, #[trigger] gists[gi].files[j])) by {
            let t = (gists[gi].html_url, gists[gi].files[j]);
            if gi < last {
                assert(g2[gi] == gists[gi]);
                assert(g2[gi].files[j] == gists[gi].files[j]);
                let k = choose|k: int| 0 <= k < prev.len() && prev[k] == t;
                assert((prev + li)[k] == t);
            } else {
                assert(li[j] == t);
                assert((prev + li)[prev.len() + j] == t);
            }
        }
    }
}

proof fn lemma_listed_origin(gists: Seq<GistsView>, k: int)
    requires
        0 <= k < listed_files(gists).len(),
    ensures
        exists|gi: int, j: int|
            0 <= gi < gists.len() && 0 <= j < gists[gi].files.len() && listed_files(gists)[k].0
                == gists[gi].html_url && listed_files(gists)[k].1 == #[trigger] gists[gi].files[j],
    decreases gists.len(),
{
    let g2 = gists.drop_last();
    let last = gists.len() - 1;
    let li = listed_in(gists.last().html_url, gists.last().files);
    let prev = listed_files(g2);
    assert(listed_files(gists) == prev + li);
    if k < prev.len() {
        lemma_listed_origin(g2, k);
        assert(listed_files(gists)[k] == prev[k]);
        let (gi, j) = choose|gi: int, j: int|
            0 <= gi < g2.len() && 0 <= j < g2[gi].files.len() && prev[k].0 == g2[gi].html_url
                && prev[k].1 == #[trigger] g2[gi].files[j];
        assert(g2[gi] == gists[gi]);
        assert(listed_files(gists)[k].1 == gists[gi].files[j]);
    } else {
        let j = k - prev.len();
        assert(listed_files(gists)[k] == li[j]);
        assert(listed_files(gists)[k].1 == gists[last].files[j]);
    }
}

/// After the cache is filled from the gists, the content of every file of
/// every gist is found under its gist's page and name.
pub proof fn lemma_loaded_file_found(gists: Seq<GistsView>, gi: int, j: int)
    requires
        0 <= gi < gists.len(),
        0 <= j < gists[gi].files.len(),
    ensures
        cache_of(gists).contains_key(key_of(gists[gi].html_url, gists[gi].files[j].filename)),
{
    lemma_listed_cover(gists);
    let lf = listed_files(gists);
    let es = lf.map_values(|p: (Seq<char>, GistFileView)| entry_of(p));
    let t = (gists[gi].html_url, gists[gi].files[j]);
    assert(lf.contains(t));
    let k = choose|k: int| 0 <= k < lf.len() && lf[k] == t;
    assert(es[k] == entry_of(t));
    lemma_map_of_keys(es, key_of(gists[gi].html_url, gists[gi].files[j].filename));
}

/// After the cache is filled from the gists, the content found under a
/// file's gist page and name is that file's content, when no other file
/// has the same page and name.
pub proof fn lemma_loaded_content(gists: Seq<GistsView>, gi: int, j: int)
    requires
        0 <= gi < gists.len(),
        0 <= j < gists[gi].files.len(),
        forall|gi2: int, j2: int|
            0 <= gi2 < gists.len() && 0 <= j2 < gists[gi2].files.len() && key_of(
                gists[gi2].html_url,
                (#[trigger] gists[gi2].files[j2]).filename,
            ) == key_of(gists[gi].html_url, gists[gi].files[j].filename) ==> gi2 == gi && j2 == j,
    ensures
        cache_of(gists)[key_of(gists[gi].html_url, gists[gi].files[j].filename)]
            == gists[gi].files[j].content,
{
    lemma_loaded_file_found(gists, gi, j);
    let lf = listed_files(gists);
    let es = lf.map_values(|p: (Seq<char>, GistFileView)| entry_of(p));
    let k0 = key_of(gists[gi].html_url, gists[gi].files[j].filename);
    assert forall|i: int| 0 <= i < es.len() && (#[trigger] es[i]).0 == k0 implies es[i].1
        == gists[gi].files[j].content by {
        assert(es[i] == entry_of(lf[i]));
        lemma_listed_origin(gists, i);
        let (gi2, j2) = choose|gi2: int, j2: int|
            0 <= gi2 < gists.len() && 0 <= j2 < gists[gi2].files.len() && lf[i].0
                == gists[gi2].html_url && lf[i].1 == #[trigger] gists[gi2].files[j2];
        assert(key_of(gists[gi2].html_url, gists[gi2].files[j2].filename) == k0);
    }
    lemma_map_of_value(es, k0, gists[gi].files[j].content);
}

/// A key names one gist page and one file name, for pages without a NUL
/// character.
pub proof fn lemma_key_of_injective(u1: Seq<char>, n1: Seq<char>, u2: Seq<char>, n2: Seq<char>)
    requires
        !u1.contains('\0'),
        !u2.contains('\0'),
        key_of(u1, n1) == key_of(u2, n2),
    ensures
        u1 == u2,
        n1 == n2,
{
    let k1 = key_of(u1, n1);
    let k2 = key_of(u2, n2);
    if u1.len() < u2.len() {
        assert(k1[u1.len() as int] == '\0');
        assert(k2[u1.len() as int] == u2[u1.len() as int]);
    } else if u2.len() < u1.len() {
        assert(k2[u2.len() as int] == '\0');
        assert(k1[u2.len() as int] == u1[u2.len() as int]);
    }
    assert(u1 =~= k1.take(u1.len() as int));
    assert(u2 =~= k2.take(u2.len() as int));
    assert(n1 =~= k1.skip(u1.len() as int + 1));
    assert(n2 =~= k2.skip(u2.len() as int + 1));
}

/// After the cache is filled from gists whose pages differ and hold no NUL
/// character, and whose files are each under their own name with distinct
/// keys within each gist, the content found under every file's page and
/// name is that file's content.
pub proof fn lemma_loaded_content_distinct(gists: Seq<GistsView>, gi: int, j: int)
    requires
        0 <= gi < gists.len(),
        0 <= j < gists[gi].files.len(),
        keys_distinct(gists),
        forall|g: int| 0 <= g < gists.len() ==> keyed_by_name(#[trigger] gists[g]),
        forall|g: int| 0 <= g < gists.len() ==> !(#[trigger] gists[g].html_url).contains('\0'),
        forall|g1: int, g2: int|
            0 <= g1 < gists.len() && 0 <= g2 < gists.len() && g1 != g2 ==> (#[trigger] gists[g1]).html_url
                != (#[trigger] gists[g2]).html_url,
    ensures
        cache_of(gists)[key_of(gists[gi].html_url, gists[gi].files[j].filename)]
            == gists[gi].files[j].content,
{
    assert forall|gi2: int, j2: int|
        0 <= gi2 < gists.len() && 0 <= j2 < gists[gi2].files.len() && key_of(
            gists[gi2].html_url,
            (#[trigger] gists[gi2].files[j2]).filename,
        ) == key_of(gists[gi].html_url, gists[gi].files[j].filename) implies gi2 == gi && j2 == j by {
        lemma_key_of_injective(
            gists[gi2].html_url,
            gists[gi2].files[j2].filename,
            gists[gi].html_url,
            gists[gi].files[j].filename,
        );
        assert(keyed_by_name(gists[gi]));
        assert(distinct_keys(gists[gi].keys));
        if gi2 == gi && j2 != j {
            assert(gists[gi].keys[j2] != gists[gi].keys[j]);
        }
    }
    lemma_loaded_content(gists, gi, j);
}

/// After the cache is filled from the gists, nothing is found under a key
/// that is no file's gist page and name.
pub proof fn lemma_unloaded_missing(gists: Seq<GistsView>, key: Seq<char>)
    requires
        forall|gi: int, j: int|
            0 <= gi < gists.len() && 0 <= j < gists[gi].files.len() ==> key_of(
                gists[gi].html_url,
                (#[trigger] gists[gi].files[j]).filename,
            ) != key,
    ensures
        !cache_of(gists).contains_key(key),
{
    let lf = listed_files(gists);
    let es = lf.map_values(|p: (Seq<char>, GistFileView)| entry_of(p));
    lemma_map_of_keys(es, key);
    if exists|i: int| 0 <= i < es.len() && (#[trigger] es[i]).0 == key {
        let i = choose|i: int| 0 <= i < es.len() && (#[trigger] es[i]).0 == key;
        assert(es[i] == entry_of(lf[i]));
        lemma_listed_origin(gists, i);
        let (gi2, j2) = choose|gi2: int, j2: int|
            0 <= gi2 < gists.len() && 0 <= j2 < gists[gi2].files.len() && lf[i].0
                == gists[gi2].html_url && lf[i].1 == #[trigger] gists[gi2].files[j2];
        assert(key_of(gists[gi2].html_url, gists[gi2].files[j2].filename) == key);
    }
}


/// Every row of the file list that a load gives can be summarised: the
/// cache filled by that load holds content under the row's gist page and
/// name.
pub proof fn lemma_every_row_summarisable(gists: Seq<GistsView>, k: int)
    requires
        0 <= k < rows_of(gists).len(),
    ensures
        cache_of(gists).contains_key(key_of(rows_of(gists)[k].gist_url, rows_of(gists)[k].filename)),
{
    let lf = listed_files(gists);
    let es = lf.map_values(|p: (Seq<char>, GistFileView)| entry_of(p));
    assert(rows_of(gists)[k] == row_of(lf[k]));
    assert(es[k] == entry_of(lf[k]));
    lemma_map_of_keys(es, key_of(rows_of(gists)[k].gist_url, rows_of(gists)[k].filename));
}

/// The summary prompt is the fixed opening, the file's name, the opening
/// of the `<file>` block, the whole content, and the block's closing with
/// the instruction: name and content each stand whole, at places that only
/// the name's length decides.
pub proof fn lemma_summary_prompt_holds_file(filename: Seq<char>, content: Seq<char>)
    ensures
        summary_prompt_text(filename, content).len() == filename.len() as int + content.len() as int + 180,
        summary_prompt_text(filename, content).take(39) == "Below is the content of a file called '"@,
        summary_prompt_text(filename, content).subrange(39, 39 + filename.len() as int) == filename,
        summary_prompt_text(filename, content).subrange(39 + filename.len() as int, 50 + filename.len() as int)
            == "'.\n\n<file>\n"@,
        summary_prompt_text(filename, content).subrange(
            50 + filename.len() as int,
            50 + filename.len() as int + content.len() as int,
        ) == content,
        summary_prompt_text(filename, content).skip(50 + filename.len() as int + content.len() as int)
            == "\n</file>\n\nWrite exactly ONE short sentence summarising what this file does. Do not repeat the code. Do not use more than 30 words."@,
{
    reveal_strlit("Below is the content of a file called '");
    reveal_strlit("'.\n\n<file>\n");
    reveal_strlit("\n</file>\n\nWrite exactly ONE short sentence summarising what this file does. Do not repeat the code. Do not use more than 30 words.");
    let p = summary_prompt_text(filename, content);
    let a = "Below is the content of a file called '"@;
    let b = "'.\n\n<file>\n"@;
    let c = "\n</file>\n\nWrite exactly ONE short sentence summarising what this file does. Do not repeat the code. Do not use more than 30 words."@;
    assert(p == a + filename + b + content + c);
    assert(p.take(39) =~= a);
    assert(p.subrange(39, 39 + filename.len() as int) =~= filename);
    assert(p.subrange(39 + filename.len() as int, 50 + filename.len() as int) =~= b);
    assert(p.subrange(50 + filename.len() as int, 50 + filename.len() as int + content.len() as int) =~= content);
    assert(p.skip(50 + filename.len() as int + content.len() as int) =~= c);
}

/// Two summary prompts for files of the same name are the same only when
/// the contents are: no part of the content is left out of the prompt.
pub proof fn lemma_summary_prompt_tells_contents_apart(
    filename: Seq<char>,
    content1: Seq<char>,
    content2: Seq<char>,
)
    requires
        summary_prompt_text(filename, content1) == summary_prompt_text(filename, content2),
    ensures
        content1 == content2,
{
    lemma_summary_prompt_holds_file(filename, content1);
    lemma_summary_prompt_holds_file(filename, content2);
}

/// The quick prompt is the fixed opening, the file's name, the rest of the
/// request, and then the whole content, to the end.
pub proof fn lemma_quick_prompt_holds_file(filename: Seq<char>, content: Seq<char>)
    ensures
        quick_prompt_text(filename, content).len() == filename.len() as int + content.len() as int + 52,
        quick_prompt_text(filename, content).take(31) == "Summarise the following file ('"@,
        quick_prompt_text(filename, content).subrange(31, 31 + filename.len() as int) == filename,
        quick_prompt_text(filename, content).subrange(31 + filename.len() as int, 52 + filename.len() as int)
            == "') in one sentence:\n\n"@,
        quick_prompt_text(filename, content).skip(52 + filename.len() as int) == content,
{
    reveal_strlit("Summarise the following file ('");
    reveal_strlit("') in one sentence:\n\n");
    let p = quick_prompt_text(filename, content);
    let a = "Summarise the following file ('"@;
    let b = "') in one sentence:\n\n"@;
    assert(p == a + filename + b + content);
    assert(p.take(31) =~= a);
    assert(p.subrange(31, 31 + filename.len() as int) =~= filename);
    assert(p.subrange(31 + filename.len() as int, 52 + filename.len() as int) =~= b);
    assert(p.skip(52 + filename.len() as int) =~= content);
}

/// The number of files of all the gists together.
pub open spec fn file_count(gists: Seq<GistsView>) -> nat
    decreases gists.len(),
{
    if gists.len() == 0 {
        0
    } else {
        file_count(gists.drop_last()) + gists.last().files.len()
    }
}

/// Every file of every gist is listed once, gist by gist and in each gist
/// in order: file `j` of gist `gi` stands after all the files of the gists
/// before it, at place `j` among its own gist's files.
proof fn lemma_listed_positions(gists: Seq<GistsView>)
    ensures
        listed_files(gists).len() == file_count(gists),
        forall|gi: int|
            0 <= gi < gists.len() ==> file_count(#[trigger] gists.take(gi)) + gists[gi].files.len()
                <= file_count(gists),
        forall|gi: int, j: int|
            0 <= gi < gists.len() && 0 <= j < gists[gi].files.len() ==> listed_files(gists)[file_count(
                gists.take(gi),
            ) + j] == (gists[gi].html_url, #[trigger] gists[gi].files[j]),
    decreases gists.len(),
{
    if gists.len() > 0 {
        let g2 = gists.drop_last();
        let last = gists.len() - 1;
        lemma_listed_positions(g2);
        let prev = listed_files(g2);
        let li = listed_in(gists.last().html_url, gists.last().files);
        assert(listed_files(gists) == prev + li);
        assert(gists.take(last) =~= g2);
        assert forall|gi: int| 0 <= gi < gists.len() implies file_count(#[trigger] gists.take(gi))
            + gists[gi].files.len() <= file_count(gists) by {
            if gi < last {
                assert(gists.take(gi) =~= g2.take(gi));
                assert(g2[gi] == gists[gi]);
            }
        }
        assert forall|gi: int, j: int|
            0 <= gi < gists.len() && 0 <= j < gists[gi].files.len() implies listed_files(
            gists,
        )[file_count(gists.take(gi)) + j] == (gists[gi].html_url, #[trigger] gists[gi].files[j]) by {
            if gi < last {
                assert(gists.take(gi) =~= g2.take(gi));
                assert(g2[gi] == gists[gi]);
                assert(g2[gi].files[j] == gists[gi].files[j]);
                assert(file_count(g2.take(gi)) + j < prev.len());
            } else {
                assert(li[j] == (gists[gi].html_url, gists[gi].files[j]));
            }
        }
    }
}

/// The file list has one row per file of every gist and no other: as many
/// rows as files, and file `j` of gist `gi` has its row, with its name and
/// its gist's page, after the rows of the gists before it.
pub proof fn lemma_rows_one_per_file(gists: Seq<GistsView>)
    ensures
        rows_of(gists).len() == file_count(gists),
        forall|gi: int, j: int|
            0 <= gi < gists.len() && 0 <= j < gists[gi].files.len() ==> rows_of(gists)[file_count(
                gists.take(gi),
            ) + j] == (GistFileRowView {
                filename: (#[trigger] gists[gi].files[j]).filename,
                gist_url: gists[gi].html_url,
            }),
{
    lemma_listed_positions(gists);
    assert forall|gi: int, j: int|
        0 <= gi < gists.len() && 0 <= j < gists[gi].files.len() implies rows_of(gists)[file_count(
        gists.take(gi),
    ) + j] == (GistFileRowView {
        filename: (#[trigger] gists[gi].files[j]).filename,
        gist_url: gists[gi].html_url,
    }) by {
        assert(file_count(gists.take(gi)) + gists[gi].files.len() <= file_count(gists));
    }
}

/// The quick list has one row per file of every gist and no other, and
/// each row carries its file's whole content: as many rows as files, and
/// file `j` of gist `gi` has its row, with its name, its gist's page and
/// its content, after the rows of the gists before it.
pub proof fn lemma_content_rows_one_per_file(gists: Seq<GistsView>)
    ensures
        listed_files(gists).map_values(|p: (Seq<char>, GistFileView)| content_row_of(p)).len()
            == file_count(gists),
        forall|gi: int, j: int|
            0 <= gi < gists.len() && 0 <= j < gists[gi].files.len() ==> listed_files(gists).map_values(
                |p: (Seq<char>, GistFileView)| content_row_of(p),
            )[file_count(gists.take(gi)) + j] == (GistFileContentRowView {
                filename: (#[trigger] gists[gi].files[j]).filename,
                gist_url: gists[gi].html_url,
                content: gists[gi].files[j].content,
            }),
{
    lemma_listed_positions(gists);
    assert forall|gi: int, j: int|
        0 <= gi < gists.len() && 0 <= j < gists[gi].files.len() implies listed_files(gists).map_values(
        |p: (Seq<char>, GistFileView)| content_row_of(p),
    )[file_count(gists.take(gi)) + j] == (GistFileContentRowView {
        filename: (#[trigger] gists[gi].files[j]).filename,
        gist_url: gists[gi].html_url,
        content: gists[gi].files[j].content,
    }) by {
        assert(file_count(gists.take(gi)) + gists[gi].files.len() <= file_count(gists));
    }
}

/// After the cache is filled from gists whose pages differ and hold no NUL
/// character, and whose files are each under their own name with distinct
/// keys, the prompt for any file holds that file's whole content between
/// `<file>` and `</file>`.
pub proof fn lemma_loaded_prompt_holds_content(gists: Seq<GistsView>, gi: int, j: int)
    requires
        0 <= gi < gists.len(),
        0 <= j < gists[gi].files.len(),
        keys_distinct(gists),
        forall|g: int| 0 <= g < gists.len() ==> keyed_by_name(#[trigger] gists[g]),
        forall|g: int| 0 <= g < gists.len() ==> !(#[trigger] gists[g].html_url).contains('\0'),
        forall|g1: int, g2: int|
            0 <= g1 < gists.len() && 0 <= g2 < gists.len() && g1 != g2 ==> (#[trigger] gists[g1]).html_url
                != (#[trigger] gists[g2]).html_url,
    ensures
        cache_of(gists).contains_key(key_of(gists[gi].html_url, gists[gi].files[j].filename)),
        ({
            let f = gists[gi].files[j];
            let p = summary_prompt_text(f.filename, cache_of(gists)[key_of(gists[gi].html_url, f.filename)]);
            &&& p.len() == f.filename.len() + f.content.len() + 180
            &&& p.subrange(50 + f.filename.len() as int, 50 + f.filename.len() as int + f.content.len() as int)
                == f.content
        }),
{
    let f = gists[gi].files[j];
    lemma_loaded_file_found(gists, gi, j);
    lemma_loaded_content_distinct(gists, gi, j);
    lemma_summary_prompt_holds_file(f.filename, f.content);
}

} // verus!

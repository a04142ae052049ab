//! The local Ollama server: where it listens, which model it serves, how
//! long to wait for it, and what the model listing and the pull stream
//! mean.

use vstd::prelude::*;
use crate::json::{
    items_model, json_document, json_items, json_member, json_text, json_u64, lemma_items_model,
    member, parse_json, text_of, u64_of, JsonView,
};
use crate::text::{begins_with, decimal, starts_with, to_decimal, trim, trimmed, views};

verus! {

/// The address the server listens on.
pub const OLLAMA_HOST: &'static str = "127.0.0.1";

/// The port the server listens on.
pub const OLLAMA_PORT: u16 = 11434;

/// The model served unless another is configured.
pub const DEFAULT_MODEL: &'static str = "gemma3:1b";

/// How many times the server is asked whether it is up.
pub const HEALTH_ATTEMPTS: u32 = 60;

/// `host:port` of the server.
pub open spec fn host_and_port() -> Seq<char> {
    "127.0.0.1"@ + ":"@ + decimal(11434)
}

/// `host:port` of the server, as handed to it in `OLLAMA_HOST`.
pub fn host_env() -> (r: String)
    ensures
        r@ == host_and_port(),
        r@ == "127.0.0.1:11434"@,
{
    let mut r = String::from_str(OLLAMA_HOST);
    r.append(":");
    let port = to_decimal(OLLAMA_PORT as u64);
    r.append(port.as_str());
    proof {
        lemma_host_and_port();
    }
    r
}

/// The base address of the server's OpenAI-compatible interface.
pub fn base_url() -> (r: String)
    ensures
        r@ == "http://"@ + host_and_port() + "/v1"@,
        r@ == "http://127.0.0.1:11434/v1"@,
{
    let mut r = String::from_str("http://");
    let h = host_env();
    r.append(h.as_str());
    r.append("/v1");
    proof {
        lemma_host_and_port();
        reveal_strlit("http://");
        reveal_strlit("/v1");
        reveal_strlit("http://127.0.0.1:11434/v1");
        reveal_strlit("127.0.0.1:11434");
        assert(r@ =~= "http://127.0.0.1:11434/v1"@);
    }
    r
}

/// The address of the server's own interface, under which `/tags` lists
/// the models and `/pull` fetches one.
pub fn api_url() -> (r: String)
    ensures
        r@ == "http://"@ + host_and_port() + "/api"@,
        r@ == "http://127.0.0.1:11434/api"@,
{
    let mut r = String::from_str("http://");
    let h = host_env();
    r.append(h.as_str());
    r.append("/api");
    proof {
        reveal_strlit("http://");
        reveal_strlit("/api");
        reveal_strlit("http://127.0.0.1:11434/api");
        reveal_strlit("127.0.0.1:11434");
        assert(r@ =~= "http://127.0.0.1:11434/api"@);
    }
    r
}

/// The rendered port is the one the server listens on.
pub proof fn lemma_host_and_port()
    ensures
        host_and_port() == "127.0.0.1:11434"@,
{
    reveal_strlit("127.0.0.1");
    reveal_strlit(":");
    reveal_strlit("127.0.0.1:11434");
    reveal_with_fuel(decimal, 6);
    assert(decimal(11434) =~= seq!['1', '1', '4', '3', '4']);
    assert(host_and_port() =~= "127.0.0.1:11434"@);
}

/// The model to serve: the configured one, or the default.
pub fn model(configured: Option<String>) -> (r: String)
    ensures
        configured is Some ==> r == configured->0,
        configured is None ==> r@ == "gemma3:1b"@,
{
    match configured {
        Some(m) => m,
        None => String::from_str(DEFAULT_MODEL),
    }
}

/// Which directory the server keeps its models in.
#[derive(Debug, PartialEq, Eq)]
pub enum ModelsDir {
    /// The `models` directory bundled with the application.
    Bundled,
    /// `.ollama/models` under the given home directory.
    UnderHome(String),
    /// `models`, relative to the working directory.
    Relative,
}

/// The variable that names the home directory.
pub fn home_var(windows: bool) -> (r: &'static str)
    ensures
        windows ==> r@ == "USERPROFILE"@,
        !windows ==> r@ == "HOME"@,
{
    if windows {
        "USERPROFILE"
    } else {
        "HOME"
    }
}

/// The bundled models when they are there, else those under the home
/// directory when it is known, else `models` in the working directory.
pub fn models_dir(bundled_exists: bool, home: Option<String>) -> (r: ModelsDir)
    ensures
        bundled_exists ==> r == ModelsDir::Bundled,
        !bundled_exists && home is Some ==> r == ModelsDir::UnderHome(home->0),
        !bundled_exists && home is None ==> r == ModelsDir::Relative,
{
    if bundled_exists {
        ModelsDir::Bundled
    } else {
        match home {
            Some(h) => ModelsDir::UnderHome(h),
            None => ModelsDir::Relative,
        }
    }
}

/// What to do after asking the server whether it is up.
#[derive(Debug, Clone, Copy, PartialEq, Eq, Structural)]
pub enum HealthStep {
    /// The server is up.
    Ready,
    /// Wait half a second; say so first when `announce`; give up after
    /// the wait when `last`.
    Wait { announce: bool, last: bool },
}

/// The number of the next attempt at asking the server whether it is up.
#[derive(Debug)]
pub struct HealthProbe {
    pub attempt: u32,
}

impl HealthProbe {
    /// Before the first attempt.
    pub fn new() -> (r: HealthProbe)
        ensures
            r.attempt == 1,
    {
        HealthProbe { attempt: 1 }
    }

    /// Takes in the answer of one attempt: ready when the server is up;
    /// otherwise wait, saying so at every tenth attempt, and give up after
    /// the sixtieth.
    pub fn observe(&mut self, healthy: bool) -> (r: HealthStep)
        requires
            1 <= old(self).attempt <= HEALTH_ATTEMPTS,
        ensures
            healthy ==> r == HealthStep::Ready && final(self).attempt == old(self).attempt,
            !healthy ==> r == (HealthStep::Wait {
                announce: old(self).attempt % 10 == 0,
                last: old(self).attempt == HEALTH_ATTEMPTS,
            }) && final(self).attempt == old(self).attempt + 1,
    {
        if healthy {
            HealthStep::Ready
        } else {
            let step = HealthStep::Wait {
                announce: self.attempt % 10 == 0,
                last: self.attempt == HEALTH_ATTEMPTS,
            };
            self.attempt = self.attempt + 1;
            step
        }
    }
}

/// The line said while waiting for the server.
pub fn waiting_message(attempt: u32) -> (r: String)
    ensures
        r@ == "[ollama] waiting for server (attempt "@ + decimal(attempt as nat) + "/60)..."@,
{
    let mut r = String::from_str("[ollama] waiting for server (attempt ");
    let n = to_decimal(attempt as u64);
    r.append(n.as_str());
    r.append("/60)...");
    r
}

/// Whether a listed model name is the model: the same name, or the name
/// followed by `:` and a tag.
pub open spec fn names_model(name: Seq<char>, model: Seq<char>) -> bool {
    name == model || starts_with(name, model + ":"@)
}

/// A listed name names the model exactly when it begins with the whole
/// model name and either ends there or goes on with `:`.
pub proof fn lemma_names_model_shape(name: Seq<char>, model: Seq<char>)
    ensures
        names_model(name, model) <==> (model.len() <= name.len() && name.take(model.len() as int)
            == model && (name.len() == model.len() || name[model.len() as int] == ':')),
{
    reveal_strlit(":");
    let t = model + ":"@;
    assert(t.len() == model.len() + 1);
    assert(t[model.len() as int] == ':');
    assert(t.take(model.len() as int) =~= model);
    if model.len() <= name.len() && name.take(model.len() as int) == model {
        if name.len() == model.len() {
            assert(name =~= model);
        } else if name[model.len() as int] == ':' {
            assert(name.take(model.len() as int + 1) =~= t);
        }
    }
    if name == model {
        assert(name.take(model.len() as int) =~= model);
    }
    if starts_with(name, t) {
        let h = name.take(model.len() as int + 1);
        assert(h == t);
        assert(name.take(model.len() as int) =~= h.take(model.len() as int));
        assert(name[model.len() as int] == h[model.len() as int]);
    }
}

/// Another tag of the same model does not name the model: `base:other` is
/// not `base:tag` when `other` is a different tag without `:`.
pub proof fn lemma_other_tag_not_named(base: Seq<char>, tag: Seq<char>, other: Seq<char>)
    requires
        tag != other,
        !other.contains(':'),
    ensures
        !names_model(base + ":"@ + other, base + ":"@ + tag),
{
    reveal_strlit(":");
    let n = base + ":"@ + other;
    let m = base + ":"@ + tag;
    lemma_names_model_shape(n, m);
    if names_model(n, m) {
        let b: int = base.len() as int + 1;
        assert(n.skip(b) =~= other);
        assert(m.skip(b) =~= tag);
        if n.len() == m.len() {
            assert(n =~= m);
            assert(n.skip(b) == m.skip(b));
        } else {
            assert(n.take(m.len() as int) == m);
            assert(other.take(tag.len() as int) =~= n.take(m.len() as int).skip(b));
            assert(other.take(tag.len() as int) =~= tag);
            assert(other[tag.len() as int] == n[m.len() as int]);
            assert(other.contains(':'));
        }
    }
}

/// Whether some listed name is the model.
pub fn model_is_listed(names: &Vec<String>, model: &str) -> (r: bool)
    ensures
        r == exists|i: int| 0 <= i < names.len() && names_model((#[trigger] names@[i])@, model@),
{
    let mut tagged = String::from_str(model);
    tagged.append(":");
    let mut i: usize = 0;
    while i < names.len()
        invariant
            i <= names.len(),
            tagged@ == model@ + ":"@,
            forall|k: int| 0 <= k < i ==> !names_model((#[trigger] names@[k])@, model@),
        decreases names.len() - i,
    {
        let n = &names[i];
        let same = n.as_str().unicode_len() == model.unicode_len() && begins_with(n.as_str(), model);
        if same {
            assert(n@.take(model@.len() as int) =~= n@);
        }
        if same || begins_with(n.as_str(), tagged.as_str()) {
            return true;
        }
        proof {
            if n@ == model@ {
                assert(n@.take(model@.len() as int) =~= n@);
            }
        }
        i = i + 1;
    }
    false
}

/// The `name` strings of the items, in order; items without one are
/// passed over.
pub open spec fn names_in(items: Seq<JsonView>) -> Seq<Seq<char>>
    decreases items.len(),
{
    if items.len() == 0 {
        seq![]
    } else {
        let rest = names_in(items.drop_last());
        match text_of(member(items.last(), "name"@)) {
            Some(n) => rest.push(n),
            None => rest,
        }
    }
}

/// The names in a model listing: the `name` strings of the items of its
/// `models` array; none when there is no such array.
pub open spec fn model_names(doc: JsonView) -> Seq<Seq<char>> {
    match member(doc, "models"@) {
        Some(JsonView::Array(items)) => names_in(items),
        _ => seq![],
    }
}

/// The names in a model listing: the `name` of each item of its `models`
/// array that has a string there, in order. None when the listing is not
/// JSON.
pub fn listed_model_names(body: &str) -> (r: Option<Vec<String>>)
    ensures
        match json_document(body@) {
            None => r is None,
            Some(doc) => r is Some && views(r->0@) == model_names(doc),
        },
{
    match parse_json(body) {
        None => None,
        Some(doc) => {
            let mut names: Vec<String> = Vec::new();
            assert(views(names@) =~= Seq::<Seq<char>>::empty());
            match json_member(&doc, "models") {
                Some(models) => match json_items(models) {
                    Some(items) => {
                        let ghost iv = items_model(items@);
                        proof {
                            lemma_items_model(items@);
                        }
                        assert(iv.take(0) =~= Seq::<JsonView>::empty());
                        let mut i: usize = 0;
                        while i < items.len()
                            invariant
                                i <= items.len(),
                                iv == items_model(items@),
                                iv.len() == items.len(),
                                forall|k: int| 0 <= k < items.len() ==> #[trigger] iv[k] == items@[k]@,
                                views(names@) == names_in(iv.take(i as int)),
                            decreases items.len() - i,
                        {
                            let ghost pre = iv.take(i + 1);
                            assert(pre.drop_last() =~= iv.take(i as int));
                            assert(pre.last() == items@[i as int]@);
                            let ghost before = views(names@);
                            match json_member(&items[i], "name") {
                                Some(n) => match json_text(n) {
                                    Some(s) => {
                                        names.push(s);
                                        assert(views(names@) =~= before.push(s@));
                                    },
                                    None => {},
                                },
                                None => {},
                            }
                            i = i + 1;
                        }
                        assert(iv.take(i as int) =~= iv);
                    },
                    None => {},
                },
                None => {},
            }
            Some(names)
        },
    }
}

/// What the model listing says of the model.
#[derive(Debug, PartialEq, Eq)]
pub enum ModelCheck {
    /// The listing is not JSON.
    Unreadable,
    /// The model is there.
    Available,
    /// The model has to be pulled.
    Missing,
}

/// Whether the model is in the listing whose names are given (or the
/// listing could not be read).
pub fn check_listing(names: Option<Vec<String>>, model: &str) -> (r: ModelCheck)
    ensures
        names is None ==> r == ModelCheck::Unreadable,
        names matches Some(ns) ==> (r == ModelCheck::Available <==> exists|i: int|
            0 <= i < ns.len() && names_model((#[trigger] ns@[i])@, model@)),
        names is Some ==> r != ModelCheck::Unreadable,
{
    match names {
        None => ModelCheck::Unreadable,
        Some(ns) => {
            if model_is_listed(&ns, model) {
                ModelCheck::Available
            } else {
                ModelCheck::Missing
            }
        },
    }
}

/// Whether the model is in a model listing, as the listing's text tells.
pub fn check_model_listing(body: &str, model: &str) -> (r: ModelCheck)
    ensures
        match json_document(body@) {
            None => r == ModelCheck::Unreadable,
            Some(doc) => r != ModelCheck::Unreadable && (r == ModelCheck::Available <==> exists|i: int|
                0 <= i < model_names(doc).len() && names_model(
                    #[trigger] model_names(doc)[i],
                    model@,
                )),
        },
{
    let names = listed_model_names(body);
    let ghost gnames = names;
    let ghost nv = if gnames is Some {
        views(gnames->0@)
    } else {
        Seq::<Seq<char>>::empty()
    };
    let r = check_listing(names, model);
    proof {
        if let Some(doc) = json_document(body@) {
            let ns = gnames->0;
            assert(nv == model_names(doc));
            if exists|i: int| 0 <= i < model_names(doc).len() && names_model(
                #[trigger] model_names(doc)[i],
                model@,
            ) {
                let i = choose|i: int| 0 <= i < model_names(doc).len() && names_model(
                    #[trigger] model_names(doc)[i],
                    model@,
                );
                assert(nv[i] == ns@[i]@);
            }
            if exists|i: int| 0 <= i < ns.len() && names_model((#[trigger] ns@[i])@, model@) {
                let i = choose|i: int| 0 <= i < ns.len() && names_model((#[trigger] ns@[i])@, model@);
                assert(nv[i] == ns@[i]@);
            }
        }
    }
    r
}

/// What a line of the pull stream calls for.
#[derive(Debug, PartialEq, Eq)]
pub enum PullStep {
    /// Nothing to show.
    Skip,
    /// The pull failed; the message says how.
    Fail(String),
    /// Part of the model has come: `done` of `total` bytes, in whole
    /// megabytes `done_mb` of `total_mb`.
    Progress { status: String, done: u64, total: u64, done_mb: u64, total_mb: u64 },
    /// A status to show.
    Status(String),
}

/// What a line of the pull stream calls for, as plain values.
pub enum PullStepView {
    Skip,
    Fail(Seq<char>),
    Progress { status: Seq<char>, done: u64, total: u64, done_mb: u64, total_mb: u64 },
    Status(Seq<char>),
}

impl View for PullStep {
    type V = PullStepView;

    open spec fn view(&self) -> PullStepView {
        match self {
            PullStep::Skip => PullStepView::Skip,
            PullStep::Fail(m) => PullStepView::Fail(m@),
            PullStep::Progress { status, done, total, done_mb, total_mb } => PullStepView::Progress {
                status: status@,
                done: *done,
                total: *total,
                done_mb: *done_mb,
                total_mb: *total_mb,
            },
            PullStep::Status(s) => PullStepView::Status(s@),
        }
    }
}

/// What a line of the pull stream calls for, from the trimmed line and
/// what it holds: a failure when it has an `error` member; progress when
/// it has integer `completed` and `total` members and the total is not
/// zero; otherwise its `status` when that is a non-empty string; otherwise
/// nothing.
pub open spec fn pull_step_result(
    line: Seq<char>,
    has_error: bool,
    status: Option<Seq<char>>,
    completed: Option<u64>,
    total: Option<u64>,
) -> PullStepView {
    let st = match status {
        Some(x) => x,
        None => Seq::<char>::empty(),
    };
    if has_error {
        PullStepView::Fail(pull_error_text(line))
    } else if completed is Some && total is Some && total->0 > 0 {
        PullStepView::Progress {
            status: st,
            done: completed->0,
            total: total->0,
            done_mb: (completed->0 / 1_000_000) as u64,
            total_mb: (total->0 / 1_000_000) as u64,
        }
    } else if st.len() > 0 {
        PullStepView::Status(st)
    } else {
        PullStepView::Skip
    }
}

/// The view of an optional string.
pub open spec fn opt_view(s: Option<String>) -> Option<Seq<char>> {
    match s {
        Some(x) => Some(x@),
        None => None,
    }
}

/// The message of a pull that failed with the given line.
pub open spec fn pull_error_text(line: Seq<char>) -> Seq<char> {
    "model pull error: "@ + line
}

/// What a line of the pull stream calls for, from what it holds: `line` is
/// the line trimmed, `has_error` whether it has an `error` member, and
/// `status`, `completed` and `total` its members of those names when they
/// are a string and two integers.
pub fn pull_step(
    line: &str,
    has_error: bool,
    status: Option<String>,
    completed: Option<u64>,
    total: Option<u64>,
) -> (r: PullStep)
    ensures
        r@ == pull_step_result(line@, has_error, opt_view(status), completed, total),
        has_error ==> (r matches PullStep::Fail(m) && m@ == pull_error_text(line@)),
        !has_error && completed is Some && total is Some && total->0 > 0 ==> (r matches
            PullStep::Progress { status: s, done, total: t, done_mb, total_mb } && done
            == completed->0 && t == total->0 && done_mb == completed->0 / 1_000_000 && total_mb
            == total->0 / 1_000_000 && s@ == match status {
            Some(x) => x@,
            None => Seq::<char>::empty(),
        }),
        !has_error && !(completed is Some && total is Some && total->0 > 0) ==> match status {
            Some(x) => if x@.len() > 0 {
                (r matches PullStep::Status(s) && s@ == x@)
            } else {
                r is Skip
            },
            None => r is Skip,
        },
{
    if has_error {
        let mut m = String::from_str("model pull error: ");
        m.append(line);
        return PullStep::Fail(m);
    }
    let s = match status {
        Some(x) => x,
        None => String::new(),
    };
    match (completed, total) {
        (Some(done), Some(t)) => {
            if t > 0 {
                return PullStep::Progress {
                    status: s,
                    done,
                    total: t,
                    done_mb: done / 1_000_000,
                    total_mb: t / 1_000_000,
                };
            }
        },
        _ => {},
    }
    if s.as_str().unicode_len() > 0 {
        PullStep::Status(s)
    } else {
        PullStep::Skip
    }
}

/// What a line of the pull stream calls for: nothing when the trimmed
/// line is not JSON; otherwise as `pull_step` says, from its `error`,
/// `status`, `completed` and `total` members.
pub fn pull_line_step(line: &str) -> (r: PullStep)
    ensures
        match json_document(trim(line@)) {
            None => r is Skip,
            Some(doc) => r@ == pull_step_result(
                trim(line@),
                member(doc, "error"@) is Some,
                text_of(member(doc, "status"@)),
                u64_of(member(doc, "completed"@)),
                u64_of(member(doc, "total"@)),
            ),
        },
        r matches PullStep::Fail(m) ==> m@ == pull_error_text(trim(line@)),
{
    let t = trimmed(line);
    match parse_json(t.as_str()) {
        None => PullStep::Skip,
        Some(doc) => {
            let has_error = json_member(&doc, "error").is_some();
            let status = match json_member(&doc, "status") {
                Some(v) => json_text(v),
                None => None,
            };
            let completed = match json_member(&doc, "completed") {
                Some(v) => json_u64(v),
                None => None,
            };
            let total = match json_member(&doc, "total") {
                Some(v) => json_u64(v),
                None => None,
            };
            let ghost sv = opt_view(status);
            assert(sv == text_of(member(doc@, "status"@)));
            pull_step(t.as_str(), has_error, status, completed, total)
        },
    }
}

} // verus!

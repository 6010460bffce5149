//! The challenge repository: its on-disk layout (active root, done root, the
//! hidden control directory with credential and flag cache), its persisted
//! configuration, the search for the repository root, and the plan for
//! materializing a challenge directory.

use vstd::prelude::*;
use crate::models::{Attachment, Challenge};
use crate::reconcile::seq_has_str;
use crate::text::{push_char, spec_ends_with, spec_join};

verus! {

/// The persisted repository configuration: the remote server base address.
pub struct RepoConfig {
    pub server: String,
}

/// A challenge repository: its root directory and its configuration.
pub struct BergRepo {
    pub path: String,
    pub config: RepoConfig,
}

impl BergRepo {
    /// The done root: `<repo>/.done`.
    pub fn done_path(&self) -> (r: String)
        ensures
            r@ == spec_join(self.path@, (".done")@),
    {
        crate::text::join_path(self.path.as_str(), ".done")
    }

    /// The hidden control directory: `<repo>/.berg`.
    pub fn berg_dir(&self) -> (r: String)
        ensures
            r@ == spec_join(self.path@, (".berg")@),
    {
        crate::text::join_path(self.path.as_str(), ".berg")
    }

    /// The credential file: `<repo>/.berg/auth`.
    pub fn auth_path(&self) -> (r: String)
        ensures
            r@ == spec_join(spec_join(self.path@, (".berg")@), ("auth")@),
    {
        let dir = self.berg_dir();
        crate::text::join_path(dir.as_str(), "auth")
    }

    /// The configuration file: `<repo>/.berg.toml`.
    pub fn config_path(&self) -> (r: String)
        ensures
            r@ == spec_join(self.path@, (".berg.toml")@),
    {
        crate::text::join_path(self.path.as_str(), ".berg.toml")
    }

    /// The tried-flags cache file: `<repo>/.berg/tried_flags`.
    pub fn tried_flags_path(&self) -> (r: String)
        ensures
            r@ == spec_join(spec_join(self.path@, (".berg")@), ("tried_flags")@),
    {
        let dir = self.berg_dir();
        crate::text::join_path(dir.as_str(), "tried_flags")
    }
}

/// The index of the last `/` in the path, or -1 when it has none.
pub open spec fn last_slash(p: Seq<char>) -> int
    decreases p.len(),
{
    if p.len() == 0 {
        -1
    } else if p.last() == '/' {
        p.len() - 1
    } else {
        last_slash(p.drop_last())
    }
}

proof fn lemma_last_slash_bounds(p: Seq<char>)
    ensures
        -1 <= last_slash(p) < p.len(),
    decreases p.len(),
{
    if p.len() > 0 && p.last() != '/' {
        lemma_last_slash_bounds(p.drop_last());
    }
}

/// The nearest directory, walking up from `start`, that holds the repository
/// marker: `start` itself if marked, else its parents in turn, `None` when
/// the walk leaves the root without a hit.
pub open spec fn spec_find_root(start: Seq<char>, marked: Seq<String>) -> Option<Seq<char>>
    decreases start.len() via spec_find_root_decreases
{
    if seq_has_str(marked, start) {
        Some(start)
    } else if last_slash(start) >= 0 {
        spec_find_root(start.subrange(0, last_slash(start)), marked)
    } else {
        None
    }
}

#[via_fn]
proof fn spec_find_root_decreases(start: Seq<char>, marked: Seq<String>) {
    lemma_last_slash_bounds(start);
}

fn find_last_slash(p: &str) -> (r: Option<usize>)
    ensures
        r matches Some(j) ==> j == last_slash(p@) && j < p@.len(),
        r is None ==> last_slash(p@) == -1,
{
    let n = p.unicode_len();
    let mut i: usize = n;
    proof {
        assert(p@.take(n as int) =~= p@);
    }
    while i > 0
        invariant
            i <= n,
            n == p@.len(),
            last_slash(p@) == last_slash(p@.take(i as int)),
        decreases i,
    {
        proof {
            lemma_last_slash_bounds(p@.take(i as int));
        }
        if p.get_char(i - 1) == '/' {
            proof {
                assert(p@.take(i as int).last() == p@[i - 1]);
            }
            return Some(i - 1);
        }
        proof {
            assert(p@.take(i as int).last() == p@[i - 1]);
            assert(p@.take(i as int).drop_last() =~= p@.take(i - 1));
        }
        i -= 1;
    }
    proof {
        assert(p@.take(0).len() == 0);
    }
    None
}

fn marked_contains(marked: &Vec<String>, dir: &str) -> (r: bool)
    ensures
        r == seq_has_str(marked@, dir@),
{
    let mut k: usize = 0;
    while k < marked.len()
        invariant
            k <= marked@.len(),
            forall|j: int| 0 <= j < k ==> marked@[j]@ != dir@,
        decreases marked@.len() - k,
    {
        if crate::text::str_eq(marked[k].as_str(), dir) {
            return true;
        }
        k += 1;
    }
    false
}

/// Walks up from `starting_dir` to the nearest directory that holds the
/// repository marker file. `marked_dirs` are the directories that hold one.
pub fn find_berg_toml_dir(starting_dir: &str, marked_dirs: &Vec<String>) -> (r: Option<String>)
    ensures
        r matches Some(d) ==> spec_find_root(starting_dir@, marked_dirs@) == Some(d@),
        r is None ==> spec_find_root(starting_dir@, marked_dirs@) is None,
{
    let mut current = String::from_str(starting_dir);
    loop
        invariant
            spec_find_root(starting_dir@, marked_dirs@)
                == spec_find_root(current@, marked_dirs@),
        decreases current@.len(),
    {
        if marked_contains(marked_dirs, current.as_str()) {
            return Some(current);
        }
        match find_last_slash(current.as_str()) {
            None => {
                return None;
            }
            Some(j) => {
                proof {
                    lemma_last_slash_bounds(current@);
                }
                let next = current.as_str().substring_char(0, j);
                let next_owned = String::from_str(next);
                proof {
                    assert(next_owned@ == current@.subrange(0, last_slash(current@)));
                }
                current = next_owned;
            }
        }
    }
}

/// What the TOML encoding of the configuration writes for one character of
/// the server string inside the quoted value.
pub open spec fn toml_esc_char(ch: char) -> Seq<char> {
    if ch == '\\' {
        seq!['\\', '\\']
    } else if ch == '"' {
        seq!['\\', '"']
    } else if ch == '\n' {
        seq!['\\', 'n']
    } else if ch == '\t' {
        seq!['\\', 't']
    } else {
        seq![ch]
    }
}

/// The quoted, escaped server string.
pub open spec fn toml_esc(s: Seq<char>) -> Seq<char>
    decreases s.len(),
{
    if s.len() == 0 {
        Seq::empty()
    } else {
        toml_esc_char(s[0]) + toml_esc(s.skip(1))
    }
}

/// The text of the configuration file for a given server address.
pub open spec fn spec_config_text(server: Seq<char>) -> Seq<char> {
    ("server = \"")@ + toml_esc(server) + ("\"\n")@
}

proof fn lemma_toml_esc_append(a: Seq<char>, b: Seq<char>)
    ensures
        toml_esc(a + b) == toml_esc(a) + toml_esc(b),
    decreases a.len(),
{
    if a.len() == 0 {
        assert(a + b =~= b);
        assert(toml_esc(a) + toml_esc(b) =~= toml_esc(b));
    } else {
        assert((a + b)[0] == a[0]);
        assert((a + b).skip(1) =~= a.skip(1) + b);
        lemma_toml_esc_append(a.skip(1), b);
        assert(toml_esc(a + b) =~= toml_esc_char(a[0]) + (toml_esc(a.skip(1)) + toml_esc(b)));
        assert(toml_esc(a) + toml_esc(b)
            =~= toml_esc_char(a[0]) + (toml_esc(a.skip(1)) + toml_esc(b)));
    }
}

/// The configuration file as written at repository creation: a single
/// `server = "..."` line in TOML.
pub fn config_text(config: &RepoConfig) -> (r: String)
    ensures
        r@ == spec_config_text(config.server@),
{
    let mut out = String::from_str("server = \"");
    let s = config.server.as_str();
    let n = s.unicode_len();
    let mut i: usize = 0;
    proof {
        assert(out@ + toml_esc(s@.take(0)) =~= out@);
    }
    while i < n
        invariant
            i <= n,
            n == s@.len(),
            out@ == ("server = \"")@ + toml_esc(s@.take(i as int)),
        decreases n - i,
    {
        let ch = s.get_char(i);
        let ghost pre = out@;
        if ch == '\\' {
            out.append("\\\\");
            proof {
                reveal_strlit("\\\\");
                assert(("\\\\")@ =~= toml_esc_char(ch));
            }
        } else if ch == '"' {
            out.append("\\\"");
            proof {
                reveal_strlit("\\\"");
                assert(("\\\"")@ =~= toml_esc_char(ch));
            }
        } else if ch == '\n' {
            out.append("\\n");
            proof {
                reveal_strlit("\\n");
                assert(("\\n")@ =~= toml_esc_char(ch));
            }
        } else if ch == '\t' {
            out.append("\\t");
            proof {
                reveal_strlit("\\t");
                assert(("\\t")@ =~= toml_esc_char(ch));
            }
        } else {
            push_char(&mut out, ch);
            proof {
                assert(seq![ch] =~= toml_esc_char(ch));
            }
        }
        proof {
            let ip1: int = i + 1;
            assert(out@ == pre + toml_esc_char(ch));
            assert(s@.take(ip1) =~= s@.take(i as int) + seq![s@[i as int]]);
            lemma_toml_esc_append(s@.take(i as int), seq![s@[i as int]]);
            assert(seq![s@[i as int]].skip(1) =~= Seq::<char>::empty());
            assert(toml_esc(seq![s@[i as int]])
                =~= toml_esc_char(s@[i as int]) + toml_esc(Seq::<char>::empty()));
            assert(out@ =~= ("server = \"")@ + toml_esc(s@.take(ip1)));
        }
        i += 1;
    }
    out.append("\"\n");
    proof {
        assert(s@.take(n as int) =~= s@);
    }
    out
}

/// The `server` value a TOML parser reads from the configuration file, and
/// `None` where the text is not valid TOML with a string-valued `server` key.
/// A function of the text alone.
pub uninterp spec fn toml_server_of(text: Seq<char>) -> Option<Seq<char>>;

/// Relies on the toml crate's from_str for Table and Value::as_str: parses
/// the configuration text and reads its `server` string; the result is a
/// function of the text alone.
#[verifier::external_body]
fn parse_config_server(text: &str) -> (r: Option<String>)
    ensures
        r matches Some(s) ==> toml_server_of(text@) == Some(s@),
        r is None ==> toml_server_of(text@) is None,
{
    let table: toml::Table = match text.parse() {
        Ok(t) => t,
        Err(_) => return None,
    };
    match table.get("server").and_then(|s| s.as_str()) {
        Some(s) => Some(s.to_owned()),
        None => None,
    }
}

/// The configuration file could not be read as a repository configuration.
#[derive(Clone, Copy, Debug, PartialEq, Eq, Structural)]
pub enum ConfigError {
    Malformed,
}

/// Reads the repository configuration from the text of `.berg.toml`.
pub fn parse_config(text: &str) -> (r: Result<RepoConfig, ConfigError>)
    ensures
        r matches Ok(config) ==> toml_server_of(text@) == Some(config.server@),
        r is Err ==> toml_server_of(text@) is None
            && r == Err::<RepoConfig, ConfigError>(ConfigError::Malformed),
{
    match parse_config_server(text) {
        Some(server) => Ok(RepoConfig { server }),
        None => Err(ConfigError::Malformed),
    }
}

/// Why a repository cannot be created where asked.
#[derive(Clone, Copy, Debug, PartialEq, Eq, Structural)]
pub enum InitError {
    /// The target directory exists and is not empty.
    DirectoryNotEmpty,
}

/// What creating a repository writes: directories to create and files to
/// write, in order.
pub struct InitPlan {
    pub dirs: Vec<String>,
    pub files: Vec<(String, String)>,
}

impl BergRepo {
    /// Plans the initial repository structure: refused outright when the
    /// target directory is not empty; otherwise the done root and the control
    /// directory, an ignore rule that keeps the credential out of version
    /// control, the configuration file, and the credential file when a token
    /// is given.
    pub fn init_plan(&self, dir_nonempty: bool, token: &Option<String>) -> (r: Result<
        InitPlan,
        InitError,
    >)
        ensures
            (r is Ok) == !dir_nonempty,
            r is Err ==> r == Err::<InitPlan, InitError>(InitError::DirectoryNotEmpty),
            r matches Ok(plan) ==> {
                &&& plan.dirs@.len() == 2
                &&& plan.dirs@[0]@ == spec_join(self.path@, (".done")@)
                &&& plan.dirs@[1]@ == spec_join(self.path@, (".berg")@)
                &&& plan.files@.len() == (if token is Some { 3int } else { 2int })
                &&& plan.files@[0].0@ == spec_join(self.path@, (".gitignore")@)
                &&& plan.files@[0].1@ == (".berg/auth")@
                &&& plan.files@[1].0@ == spec_join(self.path@, (".berg.toml")@)
                &&& plan.files@[1].1@ == spec_config_text(self.config.server@)
                &&& (token matches Some(t) ==> plan.files@[2].0@
                    == spec_join(spec_join(self.path@, (".berg")@), ("auth")@)
                    && plan.files@[2].1@ == t@)
            },
    {
        if dir_nonempty {
            return Err(InitError::DirectoryNotEmpty);
        }
        let mut dirs: Vec<String> = Vec::new();
        dirs.push(self.done_path());
        dirs.push(self.berg_dir());
        let mut files: Vec<(String, String)> = Vec::new();
        files.push((
            crate::text::join_path(self.path.as_str(), ".gitignore"),
            String::from_str(".berg/auth"),
        ));
        files.push((self.config_path(), config_text(&self.config)));
        match token {
            Some(t) => {
                files.push((self.auth_path(), t.clone()));
            }
            None => {}
        }
        Ok(InitPlan { dirs, files })
    }
}

/// What Markdown rendering makes of a challenge's HTML description. A
/// function of the HTML alone.
pub uninterp spec fn markdown_of(html: Seq<char>) -> Seq<char>;

/// Relies on html2md::parse_html: converts HTML to Markdown; the result is a
/// function of the input alone.
#[verifier::external_body]
fn html_to_markdown(html: &str) -> (r: String)
    ensures
        r@ == markdown_of(html@),
{
    html2md::parse_html(html)
}

/// The README written into a fresh challenge directory: title, author, and
/// the challenge's description rendered as Markdown.
pub open spec fn spec_readme(name: Seq<char>, author: Seq<char>, desc_md: Seq<char>) -> Seq<char> {
    ("# ")@ + name + ("\n\nBy **")@ + author + ("**\n\n## Description\n\n")@ + desc_md + ("\n\n")@
}

/// Renders the README for a challenge.
pub fn readme_content(ch: &Challenge) -> (r: String)
    ensures
        r@ == spec_readme(ch.name@, ch.author@, markdown_of(ch.description@)),
{
    let md = html_to_markdown(ch.description.as_str());
    let mut out = String::from_str("# ");
    out.append(ch.name.as_str());
    out.append("\n\nBy **");
    out.append(ch.author.as_str());
    out.append("**\n\n## Description\n\n");
    out.append(md.as_str());
    out.append("\n\n");
    proof {
        assert(out@ =~= spec_readme(ch.name@, ch.author@, markdown_of(ch.description@)));
    }
    out
}

/// What joining an attachment's download URL against the server base yields,
/// and `None` where the two do not form a valid URL. A function of the two
/// strings alone.
pub uninterp spec fn url_join_of(base: Seq<char>, rel: Seq<char>) -> Option<Seq<char>>;

/// Relies on url's Url::parse and Url::join: resolves a possibly relative
/// download URL against the server base address; the result is a function of
/// the two strings alone.
#[verifier::external_body]
fn resolve_url(base: &str, rel: &str) -> (r: Option<String>)
    ensures
        r matches Some(u) ==> url_join_of(base@, rel@) == Some(u@),
        r is None ==> url_join_of(base@, rel@) is None,
{
    let parsed = match url::Url::parse(base) {
        Ok(b) => b.join(rel),
        Err(_) => return None,
    };
    match parsed {
        Ok(u) => Some(String::from(u)),
        Err(_) => None,
    }
}

/// One fetch of the download-and-populate procedure.
pub enum AttachmentStep {
    /// Fetch and unpack: the file name says it is a gzip-compressed tar.
    FetchArchive { file_name: String, url: String },
    /// Fetch and keep the bytes as a plain file.
    FetchFile { file_name: String, url: String },
    /// The download URL does not resolve; the attachment is skipped.
    BadUrl { file_name: String },
}

/// How `step` handles attachment `att` of a server at `base`.
pub open spec fn step_matches(base: Seq<char>, att: Attachment, step: AttachmentStep) -> bool {
    match step {
        AttachmentStep::FetchArchive { file_name, url } => {
            &&& file_name@ == att.file_name@
            &&& url_join_of(base, att.download_url@) == Some(url@)
            &&& spec_ends_with(att.file_name@, (".tar.gz")@)
        },
        AttachmentStep::FetchFile { file_name, url } => {
            &&& file_name@ == att.file_name@
            &&& url_join_of(base, att.download_url@) == Some(url@)
            &&& !spec_ends_with(att.file_name@, (".tar.gz")@)
        },
        AttachmentStep::BadUrl { file_name } => {
            &&& file_name@ == att.file_name@
            &&& url_join_of(base, att.download_url@) is None
        },
    }
}

/// What materializing a fresh challenge directory writes and fetches.
pub struct PopulatePlan {
    pub readme: String,
    pub steps: Vec<AttachmentStep>,
}

/// Plans the download-and-populate procedure for one challenge: the README
/// text, and one step per attachment — unpacked when its name marks it a
/// gzip-compressed tar, kept as a plain file otherwise, skipped when its URL
/// does not resolve.
pub fn populate_plan(server: &str, ch: &Challenge) -> (r: PopulatePlan)
    ensures
        r.readme@ == spec_readme(ch.name@, ch.author@, markdown_of(ch.description@)),
        r.steps@.len() == ch.attachments@.len(),
        forall|i: int| 0 <= i < r.steps@.len()
            ==> step_matches(server@, ch.attachments@[i], #[trigger] r.steps@[i]),
{
    let readme = readme_content(ch);
    let mut steps: Vec<AttachmentStep> = Vec::new();
    let mut i: usize = 0;
    while i < ch.attachments.len()
        invariant
            i <= ch.attachments@.len(),
            steps@.len() == i,
            forall|j: int| 0 <= j < i
                ==> step_matches(server@, ch.attachments@[j], #[trigger] steps@[j]),
        decreases ch.attachments@.len() - i,
    {
        let att = &ch.attachments[i];
        let step = match resolve_url(server, att.download_url.as_str()) {
            None => AttachmentStep::BadUrl { file_name: att.file_name.clone() },
            Some(url) => {
                if crate::text::str_ends_with(att.file_name.as_str(), ".tar.gz") {
                    AttachmentStep::FetchArchive { file_name: att.file_name.clone(), url }
                } else {
                    AttachmentStep::FetchFile { file_name: att.file_name.clone(), url }
                }
            }
        };
        steps.push(step);
        i += 1;
    }
    PopulatePlan { readme, steps }
}

} // verus!

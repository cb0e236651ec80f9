//! Best-effort matching of saved windows to running ones.
//!
//! A pair of windows is scored by how much their identities have in common.
//! Pairs are then taken greedily, best score first, so that no window is used
//! twice and weak pairs are left out.
use crate::layout_snapshot::{IdentityModel, LayoutSnapshot, SnapshotModel, SnapshotWindow};
use crate::layout_snapshot::SnapshotWindowIdentity;
use crate::seqs;
use crate::snapshot_leaves;
use crate::snapshot_leaves::PlacedLeaf;
use crate::text;
use vstd::prelude::*;
use vstd::string::StringExecFns;

verus! {

/// Lowest score at which a pair is accepted.
pub const MATCH_SCORE_THRESHOLD: u32 = 50;

pub const SCORE_PROCESS_PATH: u32 = 100;

pub const SCORE_PROCESS_NAME: u32 = 50;

pub const SCORE_CLASS_NAME: u32 = 25;

pub const SCORE_TITLE_EXACT: u32 = 40;

pub const SCORE_TITLE_CONTAINS: u32 = 20;

pub const SCORE_TITLE_FUZZY: u32 = 10;

// ---------------------------------------------------------------------------
// Types and models
// ---------------------------------------------------------------------------

/// What a window is recognised by.
#[derive(Debug, PartialEq, Eq)]
pub struct MatchableIdentity {
    pub process_path: Option<String>,
    pub process_name: String,
    pub class_name: Option<String>,
    pub title: Option<String>,
}

/// A window entry for matching.
#[derive(Debug, PartialEq, Eq)]
pub struct MatchableWindow {
    /// Opaque key of the window.
    pub key: String,
    pub identity: MatchableIdentity,
}

/// A window entry with its workspace, for match reports.
#[derive(Debug, PartialEq, Eq)]
pub struct LayoutMatchWindow {
    pub key: String,
    pub process_name: String,
    pub process_path: Option<String>,
    pub class_name: Option<String>,
    pub title: Option<String>,
    pub workspace: Option<String>,
}

/// The workspace change that restoring a pair would make.
#[derive(Debug, PartialEq, Eq)]
pub struct PlannedWorkspaceMove {
    pub from: Option<String>,
    pub to: String,
}

/// An accepted pair.
#[derive(Debug, PartialEq, Eq)]
pub struct LayoutMatchedPair {
    pub snapshot: LayoutMatchWindow,
    pub live: LayoutMatchWindow,
    pub score: u32,
    pub planned_workspace_move: Option<PlannedWorkspaceMove>,
}

/// What a restore would match, without doing it.
#[derive(Debug, PartialEq, Eq)]
pub struct LayoutMatchReport {
    pub matched: Vec<LayoutMatchedPair>,
    pub unmatched_snapshot: Vec<LayoutMatchWindow>,
    pub unmatched_live: Vec<LayoutMatchWindow>,
}

/// What a [`MatchableIdentity`] says.
#[verifier::ext_equal]
pub struct MatchIdentityModel {
    pub process_path: Option<Seq<char>>,
    pub process_name: Seq<char>,
    pub class_name: Option<Seq<char>>,
    pub title: Option<Seq<char>>,
}

/// What a [`MatchableWindow`] says.
#[verifier::ext_equal]
pub struct MatchableModel {
    pub key: Seq<char>,
    pub identity: MatchIdentityModel,
}

/// What a [`LayoutMatchWindow`] says.
#[verifier::ext_equal]
pub struct MatchWindowModel {
    pub key: Seq<char>,
    pub identity: MatchIdentityModel,
    pub workspace: Option<Seq<char>>,
}

impl View for MatchableIdentity {
    type V = MatchIdentityModel;

    open spec fn view(&self) -> MatchIdentityModel {
        MatchIdentityModel {
            process_path: text::opt_view(self.process_path),
            process_name: self.process_name@,
            class_name: text::opt_view(self.class_name),
            title: text::opt_view(self.title),
        }
    }
}

impl View for MatchableWindow {
    type V = MatchableModel;

    open spec fn view(&self) -> MatchableModel {
        MatchableModel { key: self.key@, identity: self.identity@ }
    }
}

impl View for LayoutMatchWindow {
    type V = MatchWindowModel;

    open spec fn view(&self) -> MatchWindowModel {
        MatchWindowModel {
            key: self.key@,
            identity: MatchIdentityModel {
                process_path: text::opt_view(self.process_path),
                process_name: self.process_name@,
                class_name: text::opt_view(self.class_name),
                title: text::opt_view(self.title),
            },
            workspace: text::opt_view(self.workspace),
        }
    }
}

/// The models of windows to be matched.
pub open spec fn matchable_views(s: Seq<MatchableWindow>) -> Seq<MatchableModel> {
    s.map_values(|w: MatchableWindow| w@)
}

/// The models of windows in a report.
pub open spec fn match_window_views(s: Seq<LayoutMatchWindow>) -> Seq<MatchWindowModel> {
    s.map_values(|w: LayoutMatchWindow| w@)
}

/// A window of a report as a window to be matched.
pub open spec fn as_matchable(w: MatchWindowModel) -> MatchableModel {
    MatchableModel { key: w.key, identity: w.identity }
}

/// A saved identity as one to be matched: the recorded title is the title.
pub open spec fn matchable_identity(i: IdentityModel) -> MatchIdentityModel {
    MatchIdentityModel {
        process_path: i.process_path,
        process_name: i.process_name,
        class_name: i.class_name,
        title: i.title_hint,
    }
}

impl Clone for MatchableIdentity {
    fn clone(&self) -> (r: MatchableIdentity)
        ensures
            r == *self,
    {
        MatchableIdentity {
            process_path: text::copy_opt(&self.process_path),
            process_name: self.process_name.clone(),
            class_name: text::copy_opt(&self.class_name),
            title: text::copy_opt(&self.title),
        }
    }
}

impl Clone for LayoutMatchWindow {
    fn clone(&self) -> (r: LayoutMatchWindow)
        ensures
            r == *self,
    {
        LayoutMatchWindow {
            key: self.key.clone(),
            process_name: self.process_name.clone(),
            process_path: text::copy_opt(&self.process_path),
            class_name: text::copy_opt(&self.class_name),
            title: text::copy_opt(&self.title),
            workspace: text::copy_opt(&self.workspace),
        }
    }
}

impl MatchableIdentity {
    /// The identity recorded in a snapshot.
    pub fn from_identity(identity: &SnapshotWindowIdentity) -> (r: MatchableIdentity)
        ensures
            r@ == matchable_identity(identity@),
    {
        MatchableIdentity {
            process_path: text::copy_opt(&identity.process_path),
            process_name: identity.process_name.clone(),
            class_name: text::copy_opt(&identity.class_name),
            title: text::copy_opt(&identity.title_hint),
        }
    }

    /// The identity of a window recorded in a snapshot.
    pub fn from_window(window: &SnapshotWindow) -> (r: MatchableIdentity)
        ensures
            r@ == matchable_identity(window@.identity),
    {
        MatchableIdentity::from_identity(&window.identity)
    }
}

impl LayoutMatchWindow {
    /// A window to be matched, with its workspace.
    pub fn from_matchable(window: &MatchableWindow, workspace: Option<String>) -> (r: LayoutMatchWindow)
        ensures
            r@ == (MatchWindowModel {
                key: window@.key,
                identity: window@.identity,
                workspace: text::opt_view(workspace),
            }),
    {
        LayoutMatchWindow {
            key: window.key.clone(),
            process_name: window.identity.process_name.clone(),
            process_path: text::copy_opt(&window.identity.process_path),
            class_name: text::copy_opt(&window.identity.class_name),
            title: text::copy_opt(&window.identity.title),
            workspace,
        }
    }

    /// The window without its workspace.
    pub fn to_matchable(&self) -> (r: MatchableWindow)
        ensures
            r@ == as_matchable(self@),
    {
        MatchableWindow {
            key: self.key.clone(),
            identity: MatchableIdentity {
                process_path: text::copy_opt(&self.process_path),
                process_name: self.process_name.clone(),
                class_name: text::copy_opt(&self.class_name),
                title: text::copy_opt(&self.title),
            },
        }
    }
}

// ---------------------------------------------------------------------------
// Scores
// ---------------------------------------------------------------------------

/// The letters, digits and white space of a title.
pub open spec fn title_chars(title: Seq<char>) -> Seq<char> {
    title.filter(|c: char| text::is_alnum(c) || text::is_space(c))
}

/// The lower-case form of a text, character by character.
pub open spec fn lowered(s: Seq<char>) -> Seq<char>
    decreases s.len(),
{
    if s.len() == 0 {
        Seq::empty()
    } else {
        lowered(s.drop_last()) + text::lower(s.last())
    }
}

/// A title as it is compared: lower case, without punctuation, and with single
/// spaces between words.
pub open spec fn normalized_title(title: Seq<char>) -> Seq<char> {
    text::join(text::words(lowered(title_chars(title))), seq![' '])
}

/// Whether the shorter of two texts has at least four characters and both begin
/// with the same twelve, or with as many as the shorter one has.
pub open spec fn same_beginning(a: Seq<char>, b: Seq<char>) -> bool {
    let shorter = if a.len() < b.len() {
        a.len()
    } else {
        b.len()
    };
    let prefix = if shorter < 12 {
        shorter
    } else {
        12
    };
    shorter >= 4 && a.take(prefix as int) == b.take(prefix as int)
}

/// The points for two titles.
pub open spec fn title_points(candidate: Option<Seq<char>>, target: Option<Seq<char>>) -> u32 {
    match (candidate, target) {
        (Some(c), Some(t)) => {
            let a = normalized_title(c);
            let b = normalized_title(t);
            if a.len() == 0 || b.len() == 0 {
                0
            } else if a == b {
                SCORE_TITLE_EXACT
            } else if text::has_substring(a, b) || text::has_substring(b, a) {
                SCORE_TITLE_CONTAINS
            } else if same_beginning(a, b) {
                SCORE_TITLE_FUZZY
            } else {
                0
            }
        },
        _ => 0,
    }
}

/// Whether two lists agree everywhere but at one place, ASCII case aside.
pub open spec fn same_but_at(a: Seq<Seq<char>>, b: Seq<Seq<char>>, at: int) -> bool {
    &&& a.len() == b.len()
    &&& forall|j: int|
        0 <= j < a.len() && j != at ==> text::same_ignoring_ascii_case(#[trigger] a[j], b[j])
}

/// Whether two package directories are those of one package: equal but for the
/// version, which stands between the first and the second underscore.
pub open spec fn same_package(a: Seq<char>, b: Seq<char>) -> bool {
    text::fields(a, '_').len() >= 3 && same_but_at(text::fields(a, '_'), text::fields(b, '_'), 1)
}

/// Whether the components at `at` are directories of one package, right below
/// `WindowsApps`, and all other components are equal.
pub open spec fn same_package_at(c: Seq<Seq<char>>, t: Seq<Seq<char>>, at: int) -> bool {
    &&& 1 <= at < c.len()
    &&& same_but_at(c, t, at)
    &&& text::same_ignoring_ascii_case(c[at - 1], "WindowsApps"@)
    &&& same_package(c[at], t[at])
}

/// Whether two paths lead to the same program: equal but for ASCII case, or
/// equal but for the version of a store package. An update moves such a package
/// to another directory.
pub open spec fn same_program_path(c: Seq<char>, t: Seq<char>) -> bool {
    ||| text::same_ignoring_ascii_case(c, t)
    ||| exists|at: int| #[trigger]
        same_package_at(text::fields(c, '\\'), text::fields(t, '\\'), at)
}

/// The points for two paths: of the same program.
pub open spec fn path_points(candidate: Option<Seq<char>>, target: Option<Seq<char>>) -> u32 {
    match (candidate, target) {
        (Some(c), Some(t)) => if same_program_path(c, t) {
            SCORE_PROCESS_PATH
        } else {
            0
        },
        _ => 0,
    }
}

/// The points for two class names: equal.
pub open spec fn class_points(candidate: Option<Seq<char>>, target: Option<Seq<char>>) -> u32 {
    if candidate is Some && candidate == target {
        SCORE_CLASS_NAME
    } else {
        0
    }
}

/// The points for two process names: equal but for ASCII case.
pub open spec fn name_points(candidate: Seq<char>, target: Seq<char>) -> u32 {
    if text::same_ignoring_ascii_case(candidate, target) {
        SCORE_PROCESS_NAME
    } else {
        0
    }
}

/// How well a running window matches a saved one. The signals add up.
pub open spec fn score(candidate: MatchIdentityModel, target: MatchIdentityModel) -> u32 {
    (path_points(candidate.process_path, target.process_path) + name_points(
        candidate.process_name,
        target.process_name,
    ) + class_points(candidate.class_name, target.class_name) + title_points(
        candidate.title,
        target.title,
    )) as u32
}

fn normalize_title(title: &str) -> (r: Vec<char>)
    ensures
        r@ == normalized_title(title@),
{
    let chars = text::chars_of(title);
    let ghost keep = |c: char| text::is_alnum(c) || text::is_space(c);
    let mut low: Vec<char> = Vec::new();
    let mut i: usize = 0;
    assert(low@ =~= lowered(title@.take(0).filter(keep))) by {
        reveal(Seq::filter);
    }
    while i < chars.len()
        invariant
            chars@ == title@,
            i <= chars@.len(),
            keep == (|c: char| text::is_alnum(c) || text::is_space(c)),
            low@ == lowered(title@.take(i as int).filter(keep)),
        decreases chars@.len() - i,
    {
        let c = chars[i];
        let ghost kept = title@.take(i as int).filter(keep);
        proof {
            assert(title@.take(i + 1).drop_last() =~= title@.take(i as int));
            assert(title@.take(i + 1).last() == c);
            reveal(Seq::filter);
        }
        if c.is_alphanumeric() || c.is_whitespace() {
            let mut more = text::lower_chars(c);
            low.append(&mut more);
            assert(kept.push(c).drop_last() =~= kept);
            assert(low@ =~= lowered(kept.push(c)));
        }
        i = i + 1;
    }
    assert(title@.take(i as int) =~= title@);
    let words = text::words_of(&low);
    proof {
        reveal_strlit(" ");
        assert(" "@ =~= seq![' ']);
    }
    let joined = text::join_text(&words, " ");
    text::chars_of(joined.as_str())
}

fn same_prefix(a: &[char], b: &[char]) -> (r: bool)
    ensures
        r == same_beginning(a@, b@),
{
    let shorter: usize = if a.len() < b.len() {
        a.len()
    } else {
        b.len()
    };
    if shorter < 4 {
        return false;
    }
    let prefix: usize = if shorter < 12 {
        shorter
    } else {
        12
    };
    let mut i: usize = 0;
    while i < prefix
        invariant
            i <= prefix <= shorter,
            shorter == (if a@.len() < b@.len() {
                a@.len()
            } else {
                b@.len()
            }),
            prefix == (if shorter < 12 {
                shorter
            } else {
                12
            }),
            forall|j: int| 0 <= j < i ==> a@[j] == b@[j],
        decreases prefix - i,
    {
        if a[i] != b[i] {
            assert(a@.take(prefix as int)[i as int] != b@.take(prefix as int)[i as int]);
            return false;
        }
        i = i + 1;
    }
    assert(a@.take(prefix as int) =~= b@.take(prefix as int));
    true
}

fn title_score(candidate: &Option<String>, target: &Option<String>) -> (r: u32)
    ensures
        r == title_points(text::opt_view(*candidate), text::opt_view(*target)),
{
    match (candidate, target) {
        (Some(c), Some(t)) => {
            let a = normalize_title(c.as_str());
            let b = normalize_title(t.as_str());
            if a.len() == 0 || b.len() == 0 {
                0
            } else if text::same_chars(&a, &b) {
                SCORE_TITLE_EXACT
            } else if text::contains_chars(&a, &b) || text::contains_chars(&b, &a) {
                SCORE_TITLE_CONTAINS
            } else if same_prefix(&a, &b) {
                SCORE_TITLE_FUZZY
            } else {
                0
            }
        },
        _ => 0,
    }
}

fn agree_but_at(a: &[String], b: &[String], at: usize) -> (r: bool)
    ensures
        r == same_but_at(text::views(a@), text::views(b@), at as int),
{
    if a.len() != b.len() {
        return false;
    }
    let mut j: usize = 0;
    while j < a.len()
        invariant
            j <= a@.len(),
            a@.len() == b@.len(),
            forall|k: int|
                0 <= k < j && k != at ==> text::same_ignoring_ascii_case(
                    (#[trigger] text::views(a@)[k]),
                    text::views(b@)[k],
                ),
        decreases a@.len() - j,
    {
        if j != at && !text::eq_ignore_ascii_case(a[j].as_str(), b[j].as_str()) {
            assert(!text::same_ignoring_ascii_case(
                text::views(a@)[j as int],
                text::views(b@)[j as int],
            ));
            return false;
        }
        j = j + 1;
    }
    true
}

fn is_same_package(a: &str, b: &str) -> (r: bool)
    ensures
        r == same_package(a@, b@),
{
    let x = text::fields_of(a, '_');
    let y = text::fields_of(b, '_');
    assert(text::views(x@).len() == x@.len());
    x.len() >= 3 && agree_but_at(&x, &y, 1)
}

fn is_same_program_path(c: &str, t: &str) -> (r: bool)
    ensures
        r == same_program_path(c@, t@),
{
    if text::eq_ignore_ascii_case(c, t) {
        return true;
    }
    let x = text::fields_of(c, '\\');
    let y = text::fields_of(t, '\\');
    let ghost a = text::views(x@);
    let ghost b = text::views(y@);
    let mut at: usize = 1;
    while at < x.len()
        invariant
            1 <= at,
            a == text::views(x@),
            b == text::views(y@),
            a == text::fields(c@, '\\'),
            b == text::fields(t@, '\\'),
            forall|k: int| k < at ==> !#[trigger] same_package_at(a, b, k),
        decreases x@.len() - at,
    {
        if text::eq_ignore_ascii_case(x[at - 1].as_str(), "WindowsApps") && agree_but_at(
            &x,
            &y,
            at,
        ) {
            if is_same_package(x[at].as_str(), y[at].as_str()) {
                assert(same_package_at(a, b, at as int));
                return true;
            }
        }
        at = at + 1;
    }
    false
}

/// How well `candidate`, a running window, matches `target`, a saved one.
pub fn score_window(candidate: &MatchableIdentity, target: &MatchableIdentity) -> (r: u32)
    ensures
        r == score(candidate@, target@),
{
    let mut total: u32 = 0;
    if let (Some(c), Some(t)) = (&candidate.process_path, &target.process_path) {
        if is_same_program_path(c.as_str(), t.as_str()) {
            total = total + SCORE_PROCESS_PATH;
        }
    }
    if text::eq_ignore_ascii_case(candidate.process_name.as_str(), target.process_name.as_str()) {
        total = total + SCORE_PROCESS_NAME;
    }
    if let (Some(c), Some(t)) = (&candidate.class_name, &target.class_name) {
        if text::same_text(c.as_str(), t.as_str()) {
            total = total + SCORE_CLASS_NAME;
        }
    }
    let title: u32 = title_score(&candidate.title, &target.title);
    total + title
}

/// Windows of the same process are always close enough to be paired, and the
/// signals of two windows are worth at most 215 points.
pub proof fn law_score_range(candidate: MatchIdentityModel, target: MatchIdentityModel)
    ensures
        score(candidate, target) <= SCORE_PROCESS_PATH + SCORE_PROCESS_NAME + SCORE_CLASS_NAME
            + SCORE_TITLE_EXACT,
        text::same_ignoring_ascii_case(candidate.process_name, target.process_name) ==> score(
            candidate,
            target,
        ) >= MATCH_SCORE_THRESHOLD,
{
}

/// The path of a program in a store package of the given version.
pub open spec fn store_path(
    head: Seq<char>,
    name: Seq<char>,
    version: Seq<char>,
    rest: Seq<char>,
) -> Seq<char> {
    head + seq!['\\'] + ("WindowsApps"@ + seq!['\\'] + (name + seq!['_'] + (version + seq!['_']
        + rest)))
}

proof fn lemma_store_path(head: Seq<char>, name: Seq<char>, version: Seq<char>, rest: Seq<char>)
    requires
        !name.contains('\\'),
        !name.contains('_'),
        !version.contains('\\'),
        !version.contains('_'),
    ensures
        ({
            let tail = text::fields(rest, '\\');
            let package = name + seq!['_'] + (version + seq!['_'] + tail[0]);
            &&& tail.len() > 0
            &&& text::fields(store_path(head, name, version, rest), '\\') == text::fields(
                head,
                '\\',
            ) + seq!["WindowsApps"@] + tail.update(0, package)
            &&& text::fields(package, '_') == seq![name, version] + text::fields(tail[0], '_')
        }),
{
    let tail = text::fields(rest, '\\');
    let package = name + seq!['_'] + (version + seq!['_'] + tail[0]);
    let directory = name + seq!['_'] + (version + seq!['_'] + rest);
    let start = name + seq!['_'] + version + seq!['_'];
    assert(directory =~= start + rest);
    assert(!start.contains('\\')) by {
        assert forall|i: int| 0 <= i < start.len() implies start[i] != '\\' by {
            if i < name.len() {
                assert(start[i] == name[i]);
            } else if name.len() < i < name.len() + 1 + version.len() {
                assert(start[i] == version[i - name.len() - 1]);
            }
        }
    }
    text::lemma_fields_prefixed(start, rest, '\\');
    assert(start + tail[0] =~= package);
    reveal_strlit("WindowsApps");
    assert(!"WindowsApps"@.contains('\\'));
    text::lemma_fields_without("WindowsApps"@, '\\');
    text::lemma_fields_joined("WindowsApps"@, directory, '\\');
    text::lemma_fields_joined(head, "WindowsApps"@ + seq!['\\'] + directory, '\\');
    assert(text::fields(store_path(head, name, version, rest), '\\') =~= text::fields(head, '\\')
        + seq!["WindowsApps"@] + tail.update(0, package));
    text::lemma_fields_without(name, '_');
    text::lemma_fields_without(version, '_');
    text::lemma_fields_joined(version, tail[0], '_');
    text::lemma_fields_joined(name, version + seq!['_'] + tail[0], '_');
    assert(text::fields(package, '_') =~= seq![name, version] + text::fields(tail[0], '_'));
}

/// The path of a store app scores as a path match after an update: only the
/// version in the directory below `WindowsApps` differs.
pub proof fn law_store_version_does_not_matter(
    head: Seq<char>,
    name: Seq<char>,
    old_version: Seq<char>,
    new_version: Seq<char>,
    rest: Seq<char>,
)
    requires
        !name.contains('\\'),
        !name.contains('_'),
        !old_version.contains('\\'),
        !old_version.contains('_'),
        !new_version.contains('\\'),
        !new_version.contains('_'),
    ensures
        path_points(
            Some(store_path(head, name, new_version, rest)),
            Some(store_path(head, name, old_version, rest)),
        ) == SCORE_PROCESS_PATH,
{
    let c = text::fields(store_path(head, name, new_version, rest), '\\');
    let t = text::fields(store_path(head, name, old_version, rest), '\\');
    let tail = text::fields(rest, '\\');
    lemma_store_path(head, name, new_version, rest);
    lemma_store_path(head, name, old_version, rest);
    let at = text::fields(head, '\\').len() + 1;
    let x = text::fields(c[at as int], '_');
    let y = text::fields(t[at as int], '_');
    assert(text::fields(tail[0], '_').len() > 0);
    assert(same_but_at(x, y, 1));
    assert(c[at - 1] == "WindowsApps"@);
    assert(same_package_at(c, t, at as int));
}

// ---------------------------------------------------------------------------
// Greedy matching
// ---------------------------------------------------------------------------

/// A pair of indices: a saved window and a running one.
pub type IndexPair = (int, int);

/// Whether a pair can be accepted at all. `weight` gives the score of a pair.
pub open spec fn is_eligible(
    weight: spec_fn(int, int) -> u32,
    saved: nat,
    running: nat,
    p: IndexPair,
) -> bool {
    0 <= p.0 < saved && 0 <= p.1 < running && weight(p.0, p.1) >= MATCH_SCORE_THRESHOLD
}

/// Whether `p` is considered before `q`: the higher score first, then the
/// earlier saved window, then the earlier running one.
pub open spec fn comes_before(
    weight: spec_fn(int, int) -> u32,
    p: IndexPair,
    q: IndexPair,
) -> bool {
    ||| weight(p.0, p.1) > weight(q.0, q.1)
    ||| weight(p.0, p.1) == weight(q.0, q.1) && (p.0 < q.0 || (p.0 == q.0 && p.1 < q.1))
}

/// Whether two pairs have a window in common.
pub open spec fn overlap(p: IndexPair, q: IndexPair) -> bool {
    p.0 == q.0 || p.1 == q.1
}

/// Whether a better pair of `m` uses one of the windows of `p`.
pub open spec fn is_blocked(
    weight: spec_fn(int, int) -> u32,
    m: Seq<IndexPair>,
    p: IndexPair,
) -> bool {
    exists|i: int| 0 <= i < m.len() && comes_before(weight, #[trigger] m[i], p) && overlap(m[i], p)
}

/// Whether `m` is the greedy matching: eligible pairs without a window in
/// common, in the order in which they are considered, such that any other
/// eligible pair lost one of its windows to a better pair.
pub open spec fn is_greedy_matching(
    weight: spec_fn(int, int) -> u32,
    saved: nat,
    running: nat,
    m: Seq<IndexPair>,
) -> bool {
    &&& forall|i: int| 0 <= i < m.len() ==> is_eligible(weight, saved, running, #[trigger] m[i])
    &&& forall|i: int, j: int| 0 <= i < j < m.len() ==> !overlap(#[trigger] m[i], #[trigger] m[j])
    &&& forall|i: int, j: int|
        0 <= i < j < m.len() ==> comes_before(weight, #[trigger] m[i], #[trigger] m[j])
    &&& forall|p: IndexPair| #[trigger]
        is_eligible(weight, saved, running, p) ==> m.contains(p) || is_blocked(weight, m, p)
}

/// The greedy matching.
pub open spec fn greedy_matching(
    weight: spec_fn(int, int) -> u32,
    saved: nat,
    running: nat,
) -> Seq<IndexPair> {
    choose|m: Seq<IndexPair>| is_greedy_matching(weight, saved, running, m)
}

/// Where two greedy matchings agree on their first `k` pairs, the next pair of
/// one occurs further on in the other.
proof fn lemma_next_pair_occurs(
    weight: spec_fn(int, int) -> u32,
    saved: nat,
    running: nat,
    a: Seq<IndexPair>,
    b: Seq<IndexPair>,
    k: int,
) -> (at: int)
    requires
        is_greedy_matching(weight, saved, running, a),
        is_greedy_matching(weight, saved, running, b),
        0 <= k < a.len(),
        k <= b.len(),
        forall|i: int| 0 <= i < k ==> a[i] == b[i],
    ensures
        k <= at < b.len(),
        b[at] == a[k],
{
    let p = a[k];
    assert(is_eligible(weight, saved, running, p));
    if !b.contains(p) {
        let i = choose|i: int|
            0 <= i < b.len() && comes_before(weight, #[trigger] b[i], p) && overlap(b[i], p);
        let q = b[i];
        if i < k {
            assert(a[i] == q);
            assert(!overlap(a[i], a[k]));
        }
        assert(is_eligible(weight, saved, running, q));
        if a.contains(q) {
            let j = choose|j: int| 0 <= j < a.len() && a[j] == q;
            if j < k {
                assert(b[j] == q);
                assert(!overlap(b[j], b[i]));
            } else if j > k {
                assert(comes_before(weight, a[k], a[j]));
            }
        } else {
            let j = choose|j: int|
                0 <= j < a.len() && comes_before(weight, #[trigger] a[j], q) && overlap(a[j], q);
            if j < k {
                assert(b[j] == a[j]);
                assert(!overlap(b[j], b[i]));
            } else {
                if j > k {
                    assert(comes_before(weight, a[k], a[j]));
                }
            }
        }
        assert(false);
    }
    let at = choose|at: int| 0 <= at < b.len() && b[at] == p;
    if at < k {
        assert(a[at] == p);
        assert(!overlap(a[at], a[k]));
    }
    at
}

/// There is only one greedy matching.
pub proof fn law_greedy_matching_is_unique(
    weight: spec_fn(int, int) -> u32,
    saved: nat,
    running: nat,
    a: Seq<IndexPair>,
    b: Seq<IndexPair>,
)
    requires
        is_greedy_matching(weight, saved, running, a),
        is_greedy_matching(weight, saved, running, b),
    ensures
        a == b,
{
    lemma_same_pairs(weight, saved, running, a, b, 0);
}

proof fn lemma_same_pairs(
    weight: spec_fn(int, int) -> u32,
    saved: nat,
    running: nat,
    a: Seq<IndexPair>,
    b: Seq<IndexPair>,
    k: int,
)
    requires
        is_greedy_matching(weight, saved, running, a),
        is_greedy_matching(weight, saved, running, b),
        0 <= k <= a.len(),
        k <= b.len(),
        forall|i: int| 0 <= i < k ==> a[i] == b[i],
    ensures
        a == b,
    decreases a.len() - k,
{
    if k < a.len() {
        let at = lemma_next_pair_occurs(weight, saved, running, a, b, k);
        let back = lemma_next_pair_occurs(weight, saved, running, b, a, k);
        if at > k {
            assert(comes_before(weight, b[k], b[at]));
            if back > k {
                assert(comes_before(weight, a[k], a[back]));
            }
        }
        lemma_same_pairs(weight, saved, running, a, b, k + 1);
    } else if k < b.len() {
        let back = lemma_next_pair_occurs(weight, saved, running, b, a, k);
    } else {
        assert(a =~= b);
    }
}

/// Whether `m` is greedy among the pairs listed in `pairs`.
spec fn is_greedy_among(
    weight: spec_fn(int, int) -> u32,
    pairs: Seq<IndexPair>,
    m: Seq<IndexPair>,
) -> bool {
    &&& forall|i: int| 0 <= i < m.len() ==> pairs.contains(#[trigger] m[i])
    &&& forall|i: int, j: int| 0 <= i < j < m.len() ==> !overlap(#[trigger] m[i], #[trigger] m[j])
    &&& forall|i: int, j: int|
        0 <= i < j < m.len() ==> comes_before(weight, #[trigger] m[i], #[trigger] m[j])
    &&& forall|p: IndexPair| #[trigger]
        pairs.contains(p) ==> m.contains(p) || is_blocked(weight, m, p)
}

/// The first pair to be considered among `pairs`.
proof fn lemma_first_pair(weight: spec_fn(int, int) -> u32, pairs: Seq<IndexPair>) -> (at: int)
    requires
        pairs.len() > 0,
    ensures
        0 <= at < pairs.len(),
        forall|i: int|
            0 <= i < pairs.len() ==> pairs[at] == #[trigger] pairs[i] || comes_before(
                weight,
                pairs[at],
                pairs[i],
            ),
    decreases pairs.len(),
{
    if pairs.len() == 1 {
        0
    } else {
        let rest = pairs.drop_last();
        let best = lemma_first_pair(weight, rest);
        let last = pairs.len() - 1;
        assert forall|i: int| 0 <= i < rest.len() implies pairs[i] == rest[i] by {}
        if comes_before(weight, pairs[last], pairs[best]) {
            assert forall|i: int| 0 <= i < pairs.len() implies pairs[last] == #[trigger] pairs[i]
                || comes_before(weight, pairs[last], pairs[i]) by {
                if i < last {
                    assert(rest[best] == rest[i] || comes_before(weight, rest[best], rest[i]));
                }
            }
            last
        } else {
            assert forall|i: int| 0 <= i < pairs.len() implies pairs[best] == #[trigger] pairs[i]
                || comes_before(weight, pairs[best], pairs[i]) by {
                if i < last {
                    assert(rest[best] == rest[i] || comes_before(weight, rest[best], rest[i]));
                }
            }
            best
        }
    }
}

proof fn lemma_greedy_among_exists(
    weight: spec_fn(int, int) -> u32,
    pairs: Seq<IndexPair>,
) -> (m: Seq<IndexPair>)
    ensures
        is_greedy_among(weight, pairs, m),
    decreases pairs.len(),
{
    if pairs.len() == 0 {
        Seq::empty()
    } else {
        let at = lemma_first_pair(weight, pairs);
        let best = pairs[at];
        let free = |p: IndexPair| !overlap(best, p);
        let rest = pairs.filter(free);
        lemma_filter_drops(pairs, free, at);
        let tail = lemma_greedy_among_exists(weight, rest);
        let m = seq![best] + tail;
        assert forall|p: IndexPair| #[trigger] rest.contains(p) <==> pairs.contains(p) && free(p) by {
            seqs::lemma_filter_membership(pairs, free, p);
        }
        assert forall|i: int| 0 <= i < tail.len() implies m[i + 1] == #[trigger] tail[i] by {}
        assert forall|i: int| 0 <= i < m.len() implies pairs.contains(#[trigger] m[i]) by {
            if i > 0 {
                assert(rest.contains(tail[i - 1]));
            }
        }
        assert forall|i: int, j: int| 0 <= i < j < m.len() implies !overlap(
            #[trigger] m[i],
            #[trigger] m[j],
        ) && comes_before(weight, m[i], m[j]) by {
            assert(rest.contains(tail[j - 1]));
            if i == 0 {
                let at2 = choose|k: int| 0 <= k < pairs.len() && pairs[k] == m[j];
                assert(pairs[at2] == m[j]);
            } else {
                assert(m[i] == tail[i - 1]);
                assert(m[j] == tail[j - 1]);
            }
        }
        assert forall|p: IndexPair| #[trigger] pairs.contains(p) implies m.contains(p)
            || is_blocked(weight, m, p) by {
            if p == best {
                assert(m[0] == p);
            } else if overlap(best, p) {
                let k = choose|k: int| 0 <= k < pairs.len() && pairs[k] == p;
                assert(comes_before(weight, pairs[at], pairs[k]));
                assert(comes_before(weight, m[0], p) && overlap(m[0], p));
            } else {
                assert(rest.contains(p));
                if tail.contains(p) {
                    let i = choose|i: int| 0 <= i < tail.len() && tail[i] == p;
                    assert(m[i + 1] == p);
                } else {
                    let i = choose|i: int|
                        0 <= i < tail.len() && comes_before(weight, #[trigger] tail[i], p)
                            && overlap(tail[i], p);
                    assert(m[i + 1] == tail[i]);
                }
            }
        }
        m
    }
}

/// Filtering out an element makes a sequence shorter.
proof fn lemma_filter_drops<A>(s: Seq<A>, keep: spec_fn(A) -> bool, at: int)
    requires
        0 <= at < s.len(),
        !keep(s[at]),
    ensures
        s.filter(keep).len() < s.len(),
    decreases s.len(),
{
    reveal(Seq::filter);
    let rest = s.drop_last();
    rest.lemma_filter_len(keep);
    if at < s.len() - 1 {
        lemma_filter_drops(rest, keep, at);
    }
}

/// The pairs of a running window with each of the first `saved` windows.
spec fn pairs_of(saved: nat, running: nat) -> Seq<IndexPair>
    decreases saved,
{
    if saved == 0 {
        Seq::empty()
    } else {
        pairs_of((saved - 1) as nat, running) + Seq::new(running, |l: int| (saved - 1, l))
    }
}

proof fn lemma_pairs_of(saved: nat, running: nat)
    ensures
        forall|p: IndexPair| #[trigger]
            pairs_of(saved, running).contains(p) <==> 0 <= p.0 < saved && 0 <= p.1 < running,
    decreases saved,
{
    if saved > 0 {
        let before = pairs_of((saved - 1) as nat, running);
        let row = Seq::new(running, |l: int| (saved - 1, l));
        lemma_pairs_of((saved - 1) as nat, running);
        assert forall|p: IndexPair| #[trigger]
            pairs_of(saved, running).contains(p) <==> 0 <= p.0 < saved && 0 <= p.1 < running by {
            let all = before + row;
            if all.contains(p) {
                let i = choose|i: int| 0 <= i < all.len() && all[i] == p;
                if i < before.len() {
                    assert(before.contains(before[i]));
                } else {
                    assert(row[i - before.len()] == p);
                }
            }
            if 0 <= p.0 < saved && 0 <= p.1 < running {
                if p.0 < saved - 1 {
                    assert(before.contains(p));
                    let i = choose|i: int| 0 <= i < before.len() && before[i] == p;
                    assert(all[i] == p);
                } else {
                    assert(row[p.1] == p);
                    assert(all[before.len() + p.1] == p);
                }
            }
        }
    }
}

/// There is a greedy matching.
pub proof fn law_greedy_matching_exists(
    weight: spec_fn(int, int) -> u32,
    saved: nat,
    running: nat,
)
    ensures
        is_greedy_matching(weight, saved, running, greedy_matching(weight, saved, running)),
{
    let ok = |p: IndexPair| is_eligible(weight, saved, running, p);
    let all = pairs_of(saved, running);
    let pairs = all.filter(ok);
    lemma_pairs_of(saved, running);
    assert forall|p: IndexPair| #[trigger] pairs.contains(p) <==> is_eligible(
        weight,
        saved,
        running,
        p,
    ) by {
        seqs::lemma_filter_membership(all, ok, p);
        assert(all.contains(p) <==> 0 <= p.0 < saved && 0 <= p.1 < running);
    }
    let m = lemma_greedy_among_exists(weight, pairs);
    assert forall|i: int| 0 <= i < m.len() implies is_eligible(
        weight,
        saved,
        running,
        #[trigger] m[i],
    ) by {
        assert(pairs.contains(m[i]));
    }
    assert forall|p: IndexPair| #[trigger] is_eligible(weight, saved, running, p) implies m.contains(
        p,
    ) || is_blocked(weight, m, p) by {
        assert(pairs.contains(p));
    }
    assert(is_greedy_matching(weight, saved, running, m));
}

// ---------------------------------------------------------------------------
// Matching windows
// ---------------------------------------------------------------------------

/// The score of each pair of a saved and a running window.
pub open spec fn pair_weight(
    saved: Seq<MatchableModel>,
    running: Seq<MatchableModel>,
) -> spec_fn(int, int) -> u32 {
    |s: int, l: int| score(running[l].identity, saved[s].identity)
}

/// The greedy matching of saved and running windows.
pub open spec fn matching(
    saved: Seq<MatchableModel>,
    running: Seq<MatchableModel>,
) -> Seq<IndexPair> {
    greedy_matching(pair_weight(saved, running), saved.len(), running.len())
}

/// The matching by keys, with the score of each pair.
pub open spec fn scored_matches(
    saved: Seq<MatchableModel>,
    running: Seq<MatchableModel>,
) -> Seq<(Seq<char>, Seq<char>, u32)> {
    matching(saved, running).map_values(
        |p: IndexPair|
            (saved[p.0].key, running[p.1].key, score(running[p.1].identity, saved[p.0].identity)),
    )
}

/// The matching by keys.
pub open spec fn key_matches(
    saved: Seq<MatchableModel>,
    running: Seq<MatchableModel>,
) -> Seq<(Seq<char>, Seq<char>)> {
    matching(saved, running).map_values(|p: IndexPair| (saved[p.0].key, running[p.1].key))
}

pub open spec fn scored_views(s: Seq<(String, String, u32)>) -> Seq<(Seq<char>, Seq<char>, u32)> {
    s.map_values(|t: (String, String, u32)| (t.0@, t.1@, t.2))
}

pub open spec fn pair_views(s: Seq<(String, String)>) -> Seq<(Seq<char>, Seq<char>)> {
    s.map_values(|t: (String, String)| (t.0@, t.1@))
}

/// A pair of indices with its score.
#[derive(Clone, Copy, Debug, PartialEq, Eq, Structural)]
struct Candidate {
    score: u32,
    saved: usize,
    running: usize,
}

impl Candidate {
    spec fn pair(self) -> IndexPair {
        (self.saved as int, self.running as int)
    }
}

spec fn pairs_view(s: Seq<Candidate>) -> Seq<IndexPair> {
    s.map_values(|c: Candidate| c.pair())
}

/// Whether `list` holds each eligible pair with its score, ordered by saved and
/// then by running window.
spec fn lists_candidates(
    weight: spec_fn(int, int) -> u32,
    saved: nat,
    running: nat,
    list: Seq<Candidate>,
) -> bool {
    &&& forall|i: int|
        0 <= i < list.len() ==> is_eligible(weight, saved, running, (#[trigger] list[i]).pair())
            && list[i].score == weight(list[i].saved as int, list[i].running as int)
    &&& forall|i: int, j: int|
        0 <= i < j < list.len() ==> in_row_order(#[trigger] list[i], #[trigger] list[j])
    &&& forall|p: IndexPair| #[trigger]
        is_eligible(weight, saved, running, p) ==> exists|i: int|
            0 <= i < list.len() && (#[trigger] list[i]).pair() == p
}

spec fn in_row_order(a: Candidate, b: Candidate) -> bool {
    a.saved < b.saved || (a.saved == b.saved && a.running < b.running)
}

fn collect_candidates(
    snapshot_windows: &[MatchableWindow],
    live_windows: &[MatchableWindow],
) -> (r: Vec<Candidate>)
    ensures
        lists_candidates(
            pair_weight(matchable_views(snapshot_windows@), matchable_views(live_windows@)),
            snapshot_windows@.len(),
            live_windows@.len(),
            r@,
        ),
{
    let ghost saved = matchable_views(snapshot_windows@);
    let ghost running = matchable_views(live_windows@);
    let ghost weight = pair_weight(saved, running);
    let mut out: Vec<Candidate> = Vec::new();
    let mut s: usize = 0;
    while s < snapshot_windows.len()
        invariant
            s <= snapshot_windows@.len(),
            saved == matchable_views(snapshot_windows@),
            running == matchable_views(live_windows@),
            weight == pair_weight(saved, running),
            lists_candidates(weight, s as nat, live_windows@.len(), out@),
        decreases snapshot_windows@.len() - s,
    {
        let mut l: usize = 0;
        proof {
            assert forall|p: IndexPair| #[trigger]
                is_eligible(weight, (s + 1) as nat, live_windows@.len(), p) && p.0
                    < s implies exists|i: int|
                0 <= i < out@.len() && (#[trigger] out@[i]).pair() == p by {
                assert(is_eligible(weight, s as nat, live_windows@.len(), p));
            }
        }
        while l < live_windows.len()
            invariant
                s < snapshot_windows@.len(),
                l <= live_windows@.len(),
                saved == matchable_views(snapshot_windows@),
                running == matchable_views(live_windows@),
                weight == pair_weight(saved, running),
                forall|i: int|
                    0 <= i < out@.len() ==> is_eligible(
                        weight,
                        (s + 1) as nat,
                        live_windows@.len(),
                        (#[trigger] out@[i]).pair(),
                    ) && out@[i].score == weight(out@[i].saved as int, out@[i].running as int) && (
                    out@[i].saved < s || out@[i].running < l),
                forall|i: int, j: int|
                    0 <= i < j < out@.len() ==> in_row_order(#[trigger] out@[i], #[trigger] out@[j]),
                forall|p: IndexPair| #[trigger]
                    is_eligible(weight, (s + 1) as nat, live_windows@.len(), p) && (p.0 < s || p.1
                        < l) ==> exists|i: int| 0 <= i < out@.len() && (#[trigger] out@[i]).pair() == p,
            decreases live_windows@.len() - l,
        {
            let score: u32 = score_window(&live_windows[l].identity, &snapshot_windows[s].identity);
            assert(saved[s as int] == snapshot_windows@[s as int]@);
            assert(running[l as int] == live_windows@[l as int]@);
            assert(score == weight(s as int, l as int));
            let ghost before = out@;
            if score >= MATCH_SCORE_THRESHOLD {
                out.push(Candidate { score, saved: s, running: l });
            }
            proof {
                assert forall|p: IndexPair| #[trigger]
                    is_eligible(weight, (s + 1) as nat, live_windows@.len(), p) && (p.0 < s || p.1
                        < l + 1) implies exists|i: int|
                    0 <= i < out@.len() && (#[trigger] out@[i]).pair() == p by {
                    if p.0 < s || p.1 < l {
                        let i = choose|i: int|
                            0 <= i < before.len() && (#[trigger] before[i]).pair() == p;
                        assert(out@[i].pair() == p);
                    } else {
                        assert(p == (s as int, l as int));
                        assert(out@[out@.len() - 1].pair() == p);
                    }
                }
            }
            l = l + 1;
        }
        proof {
            assert forall|p: IndexPair| #[trigger]
                is_eligible(weight, (s + 1) as nat, live_windows@.len(), p) implies exists|i: int|
                0 <= i < out@.len() && (#[trigger] out@[i]).pair() == p by {
                assert(p.1 < l);
            }
            assert(lists_candidates(weight, (s + 1) as nat, live_windows@.len(), out@));
        }
        s = s + 1;
    }
    out
}

/// The number of flags that are not set.
spec fn unset(flags: Seq<bool>) -> nat
    decreases flags.len(),
{
    if flags.len() == 0 {
        0
    } else {
        unset(flags.drop_last()) + if flags.last() {
            0nat
        } else {
            1nat
        }
    }
}

proof fn lemma_set_one(flags: Seq<bool>, at: int)
    requires
        0 <= at < flags.len(),
        !flags[at],
    ensures
        unset(flags.update(at, true)) < unset(flags),
    decreases flags.len(),
{
    let after = flags.update(at, true);
    if at == flags.len() - 1 {
        assert(after.drop_last() =~= flags.drop_last());
    } else {
        assert(after.drop_last() =~= flags.drop_last().update(at, true));
        lemma_set_one(flags.drop_last(), at);
    }
}

/// The best candidate of which neither window is used yet.
fn best_candidate(list: &Vec<Candidate>, used_saved: &Vec<bool>, used_running: &Vec<bool>) -> (r:
    Option<usize>)
    requires
        forall|i: int|
            0 <= i < list@.len() ==> (#[trigger] list@[i]).saved < used_saved@.len()
                && list@[i].running < used_running@.len(),
        forall|i: int, j: int|
            0 <= i < j < list@.len() ==> in_row_order(#[trigger] list@[i], #[trigger] list@[j]),
    ensures
        match r {
            Some(at) => {
                &&& at < list@.len()
                &&& is_free(list@[at as int], used_saved@, used_running@)
                &&& forall|i: int|
                    0 <= i < list@.len() && is_free(#[trigger] list@[i], used_saved@, used_running@)
                        ==> i == at || list@[at as int].score > list@[i].score || (
                    list@[at as int].score == list@[i].score && in_row_order(
                        list@[at as int],
                        list@[i],
                    ))
            },
            None => forall|i: int|
                0 <= i < list@.len() ==> !is_free(
                    #[trigger] list@[i],
                    used_saved@,
                    used_running@,
                ),
        },
{
    let mut best: Option<usize> = None;
    let mut k: usize = 0;
    while k < list.len()
        invariant
            k <= list@.len(),
            forall|i: int|
                0 <= i < list@.len() ==> (#[trigger] list@[i]).saved < used_saved@.len()
                    && list@[i].running < used_running@.len(),
            forall|i: int, j: int|
                0 <= i < j < list@.len() ==> in_row_order(#[trigger] list@[i], #[trigger] list@[j]),
            match best {
                Some(at) => {
                    &&& at < k
                    &&& is_free(list@[at as int], used_saved@, used_running@)
                    &&& forall|i: int|
                        0 <= i < k && is_free(#[trigger] list@[i], used_saved@, used_running@)
                            ==> i == at || list@[at as int].score > list@[i].score || (
                        list@[at as int].score == list@[i].score && in_row_order(
                            list@[at as int],
                            list@[i],
                        ))
                },
                None => forall|i: int|
                    0 <= i < k ==> !is_free(#[trigger] list@[i], used_saved@, used_running@),
            },
        decreases list@.len() - k,
    {
        let c = list[k];
        if !used_saved[c.saved] && !used_running[c.running] {
            match best {
                Some(at) => {
                    if c.score > list[at].score {
                        best = Some(k);
                    }
                },
                None => {
                    best = Some(k);
                },
            }
        }
        k = k + 1;
    }
    best
}

spec fn is_free(c: Candidate, used_saved: Seq<bool>, used_running: Seq<bool>) -> bool {
    !used_saved[c.saved as int] && !used_running[c.running as int]
}

fn match_candidates(
    snapshot_windows: &[MatchableWindow],
    live_windows: &[MatchableWindow],
) -> (r: Vec<Candidate>)
    ensures
        pairs_view(r@) == matching(
            matchable_views(snapshot_windows@),
            matchable_views(live_windows@),
        ),
        forall|i: int|
            0 <= i < r@.len() ==> (#[trigger] r@[i]).saved < snapshot_windows@.len() && r@[i].running
                < live_windows@.len() && r@[i].score == score(
                live_windows@[r@[i].running as int]@.identity,
                snapshot_windows@[r@[i].saved as int]@.identity,
            ),
{
    let ghost weight = pair_weight(
        matchable_views(snapshot_windows@),
        matchable_views(live_windows@),
    );
    let ghost ns = snapshot_windows@.len();
    let ghost nl = live_windows@.len();
    let list = collect_candidates(snapshot_windows, live_windows);
    let mut used_saved: Vec<bool> = vec![false; snapshot_windows.len()];
    let mut used_running: Vec<bool> = vec![false; live_windows.len()];
    let mut out: Vec<Candidate> = Vec::new();
    let mut done = false;
    while !done
        invariant
            used_saved@.len() == ns,
            used_running@.len() == nl,
            lists_candidates(weight, ns, nl, list@),
            forall|i: int|
                0 <= i < out@.len() ==> is_eligible(weight, ns, nl, (#[trigger] out@[i]).pair())
                    && out@[i].score == weight(out@[i].saved as int, out@[i].running as int)
                    && used_saved@[out@[i].saved as int] && used_running@[out@[i].running as int],
            forall|i: int, j: int|
                0 <= i < j < out@.len() ==> !overlap(
                    (#[trigger] out@[i]).pair(),
                    (#[trigger] out@[j]).pair(),
                ) && comes_before(weight, out@[i].pair(), out@[j].pair()),
            forall|i: int, k: int|
                0 <= i < out@.len() && 0 <= k < list@.len() && is_free(
                    #[trigger] list@[k],
                    used_saved@,
                    used_running@,
                ) ==> comes_before(weight, (#[trigger] out@[i]).pair(), list@[k].pair()),
            forall|k: int|
                0 <= k < list@.len() && !is_free(#[trigger] list@[k], used_saved@, used_running@)
                    ==> out@.contains(list@[k]) || is_blocked(
                    weight,
                    pairs_view(out@),
                    list@[k].pair(),
                ),
            done ==> forall|k: int|
                0 <= k < list@.len() ==> !is_free(#[trigger] list@[k], used_saved@, used_running@),
        decreases
                unset(used_saved@) + (if done {
                    0nat
                } else {
                    1nat
                }),
    {
        match best_candidate(&list, &used_saved, &used_running) {
            Some(at) => {
                let c = list[at];
                let ghost before = out@;
                let ghost old_saved = used_saved@;
                let ghost old_running = used_running@;
                proof {
                    lemma_set_one(used_saved@, c.saved as int);
                }
                used_saved.set(c.saved, true);
                used_running.set(c.running, true);
                out.push(c);
                proof {
                    assert forall|k: int|
                        0 <= k < list@.len() && is_free(
                            #[trigger] list@[k],
                            used_saved@,
                            used_running@,
                        ) implies is_free(list@[k], old_saved, old_running) && comes_before(
                        weight,
                        c.pair(),
                        list@[k].pair(),
                    ) by {
                        assert(k != at);
                    }
                    assert forall|k: int|
                        0 <= k < list@.len() && !is_free(
                            #[trigger] list@[k],
                            used_saved@,
                            used_running@,
                        ) implies out@.contains(list@[k]) || is_blocked(
                        weight,
                        pairs_view(out@),
                        list@[k].pair(),
                    ) by {
                        let n = before.len() as int;
                        assert(out@[n] == c);
                        assert(pairs_view(out@)[n] == c.pair());
                        if is_free(list@[k], old_saved, old_running) {
                            if k != at {
                                assert(comes_before(weight, pairs_view(out@)[n], list@[k].pair()));
                                assert(overlap(pairs_view(out@)[n], list@[k].pair()));
                            } else {
                                assert(out@[n] == list@[k]);
                            }
                        } else if before.contains(list@[k]) {
                            let i = choose|i: int| 0 <= i < before.len() && before[i] == list@[k];
                            assert(out@[i] == list@[k]);
                        } else {
                            let old_pairs = pairs_view(before);
                            let i = choose|i: int|
                                0 <= i < old_pairs.len() && comes_before(
                                    weight,
                                    #[trigger] old_pairs[i],
                                    list@[k].pair(),
                                ) && overlap(old_pairs[i], list@[k].pair());
                            assert(pairs_view(out@)[i] == old_pairs[i]);
                        }
                    }
                }
            },
            None => {
                done = true;
            },
        }
    }
    proof {
        let m = pairs_view(out@);
        assert forall|i: int| 0 <= i < m.len() implies #[trigger] m[i] == out@[i].pair() by {}
        assert forall|p: IndexPair| #[trigger] is_eligible(weight, ns, nl, p) implies m.contains(p)
            || is_blocked(weight, m, p) by {
            let k = choose|k: int| 0 <= k < list@.len() && (#[trigger] list@[k]).pair() == p;
            if out@.contains(list@[k]) {
                let i = choose|i: int| 0 <= i < out@.len() && out@[i] == list@[k];
                assert(m[i] == p);
            }
        }
        assert(is_greedy_matching(weight, ns, nl, m));
        law_greedy_matching_exists(weight, ns, nl);
        law_greedy_matching_is_unique(weight, ns, nl, m, greedy_matching(weight, ns, nl));
    }
    out
}

/// The accepted pairs by key, with their scores, best first. Each window is
/// used at most once, and pairs below [`MATCH_SCORE_THRESHOLD`] are left out.
pub fn match_windows_with_scores(
    snapshot_windows: &[MatchableWindow],
    live_windows: &[MatchableWindow],
) -> (r: Vec<(String, String, u32)>)
    ensures
        scored_views(r@) == scored_matches(
            matchable_views(snapshot_windows@),
            matchable_views(live_windows@),
        ),
{
    let ghost all = scored_matches(
        matchable_views(snapshot_windows@),
        matchable_views(live_windows@),
    );
    let found = match_candidates(snapshot_windows, live_windows);
    let mut out: Vec<(String, String, u32)> = Vec::new();
    let mut i: usize = 0;
    while i < found.len()
        invariant
            i <= found@.len(),
            all.len() == found@.len(),
            forall|k: int|
                0 <= k < found@.len() ==> (#[trigger] found@[k]).saved < snapshot_windows@.len()
                    && found@[k].running < live_windows@.len() && all[k] == (
                    snapshot_windows@[found@[k].saved as int].key@,
                    live_windows@[found@[k].running as int].key@,
                    found@[k].score,
                ),
            scored_views(out@) == all.take(i as int),
        decreases found@.len() - i,
    {
        let c = found[i];
        let ghost before = out@;
        let saved_key = snapshot_windows[c.saved].key.clone();
        let running_key = live_windows[c.running].key.clone();
        out.push((saved_key, running_key, c.score));
        proof {
            assert(all[i as int] == (saved_key@, running_key@, c.score));
            assert(scored_views(out@) =~= scored_views(before).push(all[i as int]));
        }
        i = i + 1;
        assert(scored_views(out@) =~= all.take(i as int));
    }
    assert(all.take(i as int) =~= all);
    out
}

/// The accepted pairs by key, best first.
pub fn match_windows(
    snapshot_windows: &[MatchableWindow],
    live_windows: &[MatchableWindow],
) -> (r: Vec<(String, String)>)
    ensures
        pair_views(r@) == key_matches(
            matchable_views(snapshot_windows@),
            matchable_views(live_windows@),
        ),
{
    let ghost all = key_matches(
        matchable_views(snapshot_windows@),
        matchable_views(live_windows@),
    );
    let found = match_windows_with_scores(snapshot_windows, live_windows);
    let mut out: Vec<(String, String)> = Vec::new();
    let mut i: usize = 0;
    assert(scored_views(found@).len() == all.len());
    assert forall|k: int| 0 <= k < found@.len() implies all[k] == (
        (#[trigger] found@[k]).0@,
        found@[k].1@,
    ) by {
        let both = scored_views(found@)[k];
        assert(both == (found@[k].0@, found@[k].1@, found@[k].2));
        assert(all[k] == (both.0, both.1));
    }
    while i < found.len()
        invariant
            i <= found@.len(),
            all.len() == found@.len(),
            forall|k: int|
                0 <= k < found@.len() ==> all[k] == ((#[trigger] found@[k]).0@, found@[k].1@),
            pair_views(out@) == all.take(i as int),
        decreases found@.len() - i,
    {
        let ghost before = out@;
        let saved_key = found[i].0.clone();
        let running_key = found[i].1.clone();
        out.push((saved_key, running_key));
        proof {
            assert(all[i as int] == (saved_key@, running_key@));
            assert(pair_views(out@) =~= pair_views(before).push(all[i as int]));
        }
        i = i + 1;
        assert(pair_views(out@) =~= all.take(i as int));
    }
    assert(all.take(i as int) =~= all);
    out
}

// ---------------------------------------------------------------------------
// Reports
// ---------------------------------------------------------------------------

/// What a [`PlannedWorkspaceMove`] says.
#[verifier::ext_equal]
pub struct MoveModel {
    pub from: Option<Seq<char>>,
    pub to: Seq<char>,
}

/// What a [`LayoutMatchedPair`] says.
#[verifier::ext_equal]
pub struct MatchedPairModel {
    pub snapshot: MatchWindowModel,
    pub live: MatchWindowModel,
    pub score: u32,
    pub planned_workspace_move: Option<MoveModel>,
}

/// What a [`LayoutMatchReport`] says.
#[verifier::ext_equal]
pub struct ReportModel {
    pub matched: Seq<MatchedPairModel>,
    pub unmatched_snapshot: Seq<MatchWindowModel>,
    pub unmatched_live: Seq<MatchWindowModel>,
}

impl View for PlannedWorkspaceMove {
    type V = MoveModel;

    open spec fn view(&self) -> MoveModel {
        MoveModel { from: text::opt_view(self.from), to: self.to@ }
    }
}

impl View for LayoutMatchedPair {
    type V = MatchedPairModel;

    open spec fn view(&self) -> MatchedPairModel {
        MatchedPairModel {
            snapshot: self.snapshot@,
            live: self.live@,
            score: self.score,
            planned_workspace_move: match self.planned_workspace_move {
                Some(m) => Some(m@),
                None => None,
            },
        }
    }
}

impl View for LayoutMatchReport {
    type V = ReportModel;

    open spec fn view(&self) -> ReportModel {
        ReportModel {
            matched: self.matched@.map_values(|p: LayoutMatchedPair| p@),
            unmatched_snapshot: match_window_views(self.unmatched_snapshot@),
            unmatched_live: match_window_views(self.unmatched_live@),
        }
    }
}

/// The move that brings a running window to the workspace of the saved one.
/// None where the saved window has no workspace or the running window is there.
pub open spec fn planned_move(saved: MatchWindowModel, running: MatchWindowModel) -> Option<
    MoveModel,
> {
    match saved.workspace {
        Some(to) => if running.workspace != Some(to) {
            Some(MoveModel { from: running.workspace, to })
        } else {
            None
        },
        None => None,
    }
}

/// The last window with the given key.
pub open spec fn window_with_key(windows: Seq<MatchWindowModel>, key: Seq<char>) -> MatchWindowModel
    decreases windows.len(),
{
    if windows.len() == 0 || windows.last().key == key {
        windows.last()
    } else {
        window_with_key(windows.drop_last(), key)
    }
}

/// The windows whose key is none of `keys`.
pub open spec fn without_keys(
    windows: Seq<MatchWindowModel>,
    keys: Seq<Seq<char>>,
) -> Seq<MatchWindowModel> {
    windows.filter(|w: MatchWindowModel| !keys.contains(w.key))
}

pub open spec fn saved_keys(found: Seq<(Seq<char>, Seq<char>, u32)>) -> Seq<Seq<char>> {
    found.map_values(|t: (Seq<char>, Seq<char>, u32)| t.0)
}

pub open spec fn running_keys(found: Seq<(Seq<char>, Seq<char>, u32)>) -> Seq<Seq<char>> {
    found.map_values(|t: (Seq<char>, Seq<char>, u32)| t.1)
}

/// The matches between the windows of a report.
pub open spec fn report_matches(
    saved: Seq<MatchWindowModel>,
    running: Seq<MatchWindowModel>,
) -> Seq<(Seq<char>, Seq<char>, u32)> {
    scored_matches(
        saved.map_values(|w: MatchWindowModel| as_matchable(w)),
        running.map_values(|w: MatchWindowModel| as_matchable(w)),
    )
}

/// One line of a report.
pub open spec fn report_pair(
    saved: Seq<MatchWindowModel>,
    running: Seq<MatchWindowModel>,
    found: (Seq<char>, Seq<char>, u32),
) -> MatchedPairModel {
    let s = window_with_key(saved, found.0);
    let l = window_with_key(running, found.1);
    MatchedPairModel {
        snapshot: s,
        live: l,
        score: found.2,
        planned_workspace_move: planned_move(s, l),
    }
}

/// The report on a dry run: accepted pairs with scores and planned moves, and
/// the windows of either side whose key was not used.
pub open spec fn match_report(
    saved: Seq<MatchWindowModel>,
    running: Seq<MatchWindowModel>,
) -> ReportModel {
    let found = report_matches(saved, running);
    ReportModel {
        matched: found.map_values(
            |t: (Seq<char>, Seq<char>, u32)| report_pair(saved, running, t),
        ),
        unmatched_snapshot: without_keys(saved, saved_keys(found)),
        unmatched_live: without_keys(running, running_keys(found)),
    }
}

fn matchables_of(windows: &[LayoutMatchWindow]) -> (r: Vec<MatchableWindow>)
    ensures
        matchable_views(r@) == match_window_views(windows@).map_values(
            |w: MatchWindowModel| as_matchable(w),
        ),
{
    let ghost all = match_window_views(windows@).map_values(|w: MatchWindowModel| as_matchable(w));
    let mut out: Vec<MatchableWindow> = Vec::new();
    let mut i: usize = 0;
    while i < windows.len()
        invariant
            i <= windows@.len(),
            all == match_window_views(windows@).map_values(|w: MatchWindowModel| as_matchable(w)),
            matchable_views(out@) == all.take(i as int),
        decreases windows@.len() - i,
    {
        let w = windows[i].to_matchable();
        let ghost before = out@;
        out.push(w);
        assert(matchable_views(out@) =~= matchable_views(before).push(w@));
        i = i + 1;
        assert(matchable_views(out@) =~= all.take(i as int));
    }
    assert(all.take(i as int) =~= all);
    out
}

/// The last window with the given key, which one of the windows has.
fn find_window<'a>(windows: &'a [LayoutMatchWindow], key: &str) -> (r: &'a LayoutMatchWindow)
    requires
        exists|i: int| 0 <= i < windows@.len() && (#[trigger] windows@[i]).key@ == key@,
    ensures
        r@ == window_with_key(match_window_views(windows@), key@),
{
    let ghost all = match_window_views(windows@);
    let mut n: usize = windows.len();
    assert(all.take(n as int) =~= all);
    while !text::same_text(windows[n - 1].key.as_str(), key)
        invariant
            0 < n <= windows@.len(),
            all == match_window_views(windows@),
            exists|i: int| 0 <= i < n && (#[trigger] windows@[i]).key@ == key@,
            window_with_key(all, key@) == window_with_key(all.take(n as int), key@),
        decreases n,
    {
        assert(all.take(n as int).last() == windows@[n - 1]@);
        assert(all.take(n as int).drop_last() =~= all.take(n - 1));
        n = n - 1;
    }
    assert(all.take(n as int).last() == windows@[n - 1]@);
    &windows[n - 1]
}

fn windows_without_keys(windows: &[LayoutMatchWindow], keys: &[String]) -> (r: Vec<LayoutMatchWindow>)
    ensures
        match_window_views(r@) == without_keys(match_window_views(windows@), text::views(keys@)),
{
    let ghost all = match_window_views(windows@);
    let ghost keep = |w: MatchWindowModel| !text::views(keys@).contains(w.key);
    let mut out: Vec<LayoutMatchWindow> = Vec::new();
    let mut i: usize = 0;
    assert(match_window_views(out@) =~= all.take(0).filter(keep)) by {
        reveal(Seq::filter);
    }
    while i < windows.len()
        invariant
            i <= windows@.len(),
            all == match_window_views(windows@),
            keep == (|w: MatchWindowModel| !text::views(keys@).contains(w.key)),
            match_window_views(out@) == all.take(i as int).filter(keep),
        decreases windows@.len() - i,
    {
        proof {
            assert(all.take(i + 1).drop_last() =~= all.take(i as int));
            assert(all.take(i + 1).last() == windows@[i as int]@);
            reveal(Seq::filter);
        }
        if !text::list_contains(keys, windows[i].key.as_str()) {
            let ghost before = out@;
            let w = windows[i].clone();
            out.push(w);
            assert(match_window_views(out@) =~= match_window_views(before).push(w@));
        }
        i = i + 1;
    }
    assert(all.take(i as int) =~= all);
    out
}

fn plan_move(saved: &LayoutMatchWindow, running: &LayoutMatchWindow) -> (r: Option<
    PlannedWorkspaceMove,
>)
    ensures
        planned_move(saved@, running@) == match r {
            Some(m) => Some(m@),
            None => None,
        },
{
    match &saved.workspace {
        Some(to) => {
            let there = match &running.workspace {
                Some(now) => text::same_text(now.as_str(), to.as_str()),
                None => false,
            };
            if there {
                None
            } else {
                Some(
                    PlannedWorkspaceMove {
                        from: text::copy_opt(&running.workspace),
                        to: to.clone(),
                    },
                )
            }
        },
        None => None,
    }
}

/// The report on a dry run. Nothing is changed by it: a planned move is only
/// listed where the saved workspace differs from the current one.
pub fn build_layout_match_report(
    snapshot_windows: &[LayoutMatchWindow],
    live_windows: &[LayoutMatchWindow],
) -> (r: LayoutMatchReport)
    ensures
        r@ == match_report(
            match_window_views(snapshot_windows@),
            match_window_views(live_windows@),
        ),
{
    let ghost saved = match_window_views(snapshot_windows@);
    let ghost running = match_window_views(live_windows@);
    let ghost saved_m = saved.map_values(|w: MatchWindowModel| as_matchable(w));
    let ghost running_m = running.map_values(|w: MatchWindowModel| as_matchable(w));
    let ghost found = report_matches(saved, running);
    let ghost lines = match_report(saved, running).matched;
    let snap_matchables = matchables_of(snapshot_windows);
    let live_matchables = matchables_of(live_windows);
    let scored = match_windows_with_scores(&snap_matchables, &live_matchables);
    let mut matched: Vec<LayoutMatchedPair> = Vec::new();
    let mut used_snap: Vec<String> = Vec::new();
    let mut used_live: Vec<String> = Vec::new();
    proof {
        lemma_matches_have_windows(saved_m, running_m);
        assert(found.len() == scored@.len());
        assert forall|k: int| 0 <= k < scored@.len() implies found[k] == (
            (#[trigger] scored@[k]).0@,
            scored@[k].1@,
            scored@[k].2,
        ) by {
            assert(scored_views(scored@)[k] == found[k]);
        }
    }
    let mut i: usize = 0;
    while i < scored.len()
        invariant
            i <= scored@.len(),
            saved == match_window_views(snapshot_windows@),
            running == match_window_views(live_windows@),
            saved_m == saved.map_values(|w: MatchWindowModel| as_matchable(w)),
            running_m == running.map_values(|w: MatchWindowModel| as_matchable(w)),
            found == report_matches(saved, running),
            found.len() == scored@.len(),
            forall|k: int|
                0 <= k < scored@.len() ==> found[k] == (
                    (#[trigger] scored@[k]).0@,
                    scored@[k].1@,
                    scored@[k].2,
                ),
            forall|k: int|
                0 <= k < found.len() ==> has_key(saved_m, (#[trigger] found[k]).0) && has_key(
                    running_m,
                    found[k].1,
                ),
            lines == match_report(saved, running).matched,
            matched@.map_values(|p: LayoutMatchedPair| p@) == lines.take(i as int),
            text::views(used_snap@) == saved_keys(found).take(i as int),
            text::views(used_live@) == running_keys(found).take(i as int),
        decreases scored@.len() - i,
    {
        let snap_key = &scored[i].0;
        let live_key = &scored[i].1;
        let score: u32 = scored[i].2;
        proof {
            assert(found[i as int] == (snap_key@, live_key@, score));
            let a = choose|a: int| 0 <= a < saved_m.len() && (#[trigger] saved_m[a]).key == snap_key@;
            assert(snapshot_windows@[a].key@ == snap_key@);
            let b = choose|b: int|
                0 <= b < running_m.len() && (#[trigger] running_m[b]).key == live_key@;
            assert(live_windows@[b].key@ == live_key@);
        }
        let snap = find_window(snapshot_windows, snap_key.as_str());
        let live = find_window(live_windows, live_key.as_str());
        let pair = LayoutMatchedPair {
            snapshot: snap.clone(),
            live: live.clone(),
            score,
            planned_workspace_move: plan_move(snap, live),
        };
        let ghost old_matched = matched@;
        let ghost old_snap = used_snap@;
        let ghost old_live = used_live@;
        matched.push(pair);
        used_snap.push(snap_key.clone());
        used_live.push(live_key.clone());
        proof {
            assert(pair@ =~= report_pair(saved, running, found[i as int]));
            assert(matched@.map_values(|p: LayoutMatchedPair| p@) =~= old_matched.map_values(
                |p: LayoutMatchedPair| p@,
            ).push(pair@));
            assert(text::views(used_snap@) =~= text::views(old_snap).push(snap_key@));
            assert(text::views(used_live@) =~= text::views(old_live).push(live_key@));
            assert(lines.take(i + 1) =~= lines.take(i as int).push(lines[i as int]));
            assert(saved_keys(found).take(i + 1) =~= saved_keys(found).take(i as int).push(snap_key@));
            assert(running_keys(found).take(i + 1) =~= running_keys(found).take(i as int).push(
                live_key@,
            ));
        }
        i = i + 1;
    }
    assert(lines.take(i as int) =~= lines);
    assert(saved_keys(found).take(i as int) =~= saved_keys(found));
    assert(running_keys(found).take(i as int) =~= running_keys(found));
    LayoutMatchReport {
        matched,
        unmatched_snapshot: windows_without_keys(snapshot_windows, &used_snap),
        unmatched_live: windows_without_keys(live_windows, &used_live),
    }
}

/// Whether a window has this key.
pub open spec fn has_key(windows: Seq<MatchableModel>, key: Seq<char>) -> bool {
    exists|i: int| 0 <= i < windows.len() && (#[trigger] windows[i]).key == key
}

proof fn lemma_matches_have_windows(saved: Seq<MatchableModel>, running: Seq<MatchableModel>)
    ensures
        forall|k: int|
            0 <= k < scored_matches(saved, running).len() ==> has_key(
                saved,
                (#[trigger] scored_matches(saved, running)[k]).0,
            ) && has_key(running, scored_matches(saved, running)[k].1),
{
    let weight = pair_weight(saved, running);
    law_greedy_matching_exists(weight, saved.len(), running.len());
    let m = matching(saved, running);
    assert forall|k: int| 0 <= k < scored_matches(saved, running).len() implies has_key(
        saved,
        (#[trigger] scored_matches(saved, running)[k]).0,
    ) && has_key(running, scored_matches(saved, running)[k].1) by {
        assert(is_eligible(weight, saved.len(), running.len(), m[k]));
        assert(saved[m[k].0].key == scored_matches(saved, running)[k].0);
        assert(running[m[k].1].key == scored_matches(saved, running)[k].1);
    }
}

// ---------------------------------------------------------------------------
// The windows of a snapshot
// ---------------------------------------------------------------------------

/// A listed window as a window of a report.
pub open spec fn match_leaf(leaf: PlacedLeaf) -> MatchWindowModel {
    MatchWindowModel {
        key: leaf.key,
        identity: matchable_identity(leaf.window.identity),
        workspace: Some(leaf.workspace_name),
    }
}

/// The windows of a snapshot for a report.
pub open spec fn snapshot_match_windows(snapshot: SnapshotModel) -> Seq<MatchWindowModel> {
    snapshot_leaves::collected_leaves(
        snapshot_leaves::listed_workspaces(
            snapshot.monitors,
            snapshot_leaves::all_indices(snapshot.monitors.len()),
        ),
    ).map_values(|l: PlacedLeaf| match_leaf(l))
}

/// The windows of a snapshot, keyed as a restore keys them.
pub fn collect_snapshot_windows_for_match(snapshot: &LayoutSnapshot) -> (r: Vec<LayoutMatchWindow>)
    ensures
        match_window_views(r@) == snapshot_match_windows(snapshot@),
{
    let order = snapshot_leaves::indices_below(snapshot.monitors.len());
    let leaves = snapshot_leaves::collect_leaves(&snapshot.monitors, &order);
    let ghost all = snapshot_match_windows(snapshot@);
    let mut out: Vec<LayoutMatchWindow> = Vec::new();
    let mut i: usize = 0;
    assert(all =~= snapshot_leaves::leaf_views(leaves@).map_values(|l: PlacedLeaf| match_leaf(l)));
    while i < leaves.len()
        invariant
            i <= leaves@.len(),
            all == snapshot_leaves::leaf_views(leaves@).map_values(|l: PlacedLeaf| match_leaf(l)),
            match_window_views(out@) == all.take(i as int),
        decreases leaves@.len() - i,
    {
        let leaf = &leaves[i];
        let identity = MatchableIdentity::from_window(&leaf.window);
        let w = LayoutMatchWindow {
            key: leaf.key.clone(),
            process_name: identity.process_name,
            process_path: identity.process_path,
            class_name: identity.class_name,
            title: identity.title,
            workspace: Some(leaf.workspace_name.clone()),
        };
        let ghost before = out@;
        out.push(w);
        assert(w@ =~= match_leaf(leaf@));
        assert(match_window_views(out@) =~= match_window_views(before).push(w@));
        i = i + 1;
        assert(match_window_views(out@) =~= all.take(i as int));
    }
    assert(all.take(i as int) =~= all);
    out
}

// ---------------------------------------------------------------------------
// Laws
// ---------------------------------------------------------------------------

/// Accepted pairs reach the threshold, come best first, and no saved or running
/// window is in two of them.
pub proof fn law_no_window_is_used_twice(
    saved: Seq<MatchableModel>,
    running: Seq<MatchableModel>,
)
    ensures
        forall|i: int|
            0 <= i < matching(saved, running).len() ==> ({
                let p = #[trigger] matching(saved, running)[i];
                0 <= p.0 < saved.len() && 0 <= p.1 < running.len() && score(
                    running[p.1].identity,
                    saved[p.0].identity,
                ) >= MATCH_SCORE_THRESHOLD
            }),
        forall|i: int, j: int|
            0 <= i < j < matching(saved, running).len() ==> (#[trigger] matching(
                saved,
                running,
            )[i]).0 != (#[trigger] matching(saved, running)[j]).0 && matching(saved, running)[i].1
                != matching(saved, running)[j].1,
{
    let weight = pair_weight(saved, running);
    law_greedy_matching_exists(weight, saved.len(), running.len());
    let m = matching(saved, running);
    assert forall|i: int| 0 <= i < m.len() implies ({
        let p = #[trigger] m[i];
        0 <= p.0 < saved.len() && 0 <= p.1 < running.len() && score(
            running[p.1].identity,
            saved[p.0].identity,
        ) >= MATCH_SCORE_THRESHOLD
    }) by {
        assert(is_eligible(weight, saved.len(), running.len(), m[i]));
    }
    assert forall|i: int, j: int| 0 <= i < j < m.len() implies (#[trigger] m[i]).0 != (
    #[trigger] m[j]).0 && m[i].1 != m[j].1 by {
        assert(!overlap(m[i], m[j]));
    }
}

/// A window that is close enough to a free one does not stay unmatched: of two
/// windows that reach the threshold, at least one is in an accepted pair.
pub proof fn law_no_close_pair_is_left_over(
    saved: Seq<MatchableModel>,
    running: Seq<MatchableModel>,
    s: int,
    l: int,
)
    requires
        0 <= s < saved.len(),
        0 <= l < running.len(),
        score(running[l].identity, saved[s].identity) >= MATCH_SCORE_THRESHOLD,
    ensures
        exists|i: int|
            0 <= i < matching(saved, running).len() && ((#[trigger] matching(saved, running)[i]).0
                == s || matching(saved, running)[i].1 == l),
{
    let weight = pair_weight(saved, running);
    law_greedy_matching_exists(weight, saved.len(), running.len());
    let m = matching(saved, running);
    let p: IndexPair = (s, l);
    assert(is_eligible(weight, saved.len(), running.len(), p));
    if m.contains(p) {
        let i = choose|i: int| 0 <= i < m.len() && m[i] == p;
        assert(m[i].0 == s);
    } else {
        let i = choose|i: int|
            0 <= i < m.len() && comes_before(weight, #[trigger] m[i], p) && overlap(m[i], p);
        assert(m[i].0 == s || m[i].1 == l);
    }
}

/// A report accounts for every window: a saved window is listed as unmatched
/// exactly if no line of the report carries its key, and likewise for a running
/// one.
pub proof fn law_report_accounts_for_every_window(
    saved: Seq<MatchWindowModel>,
    running: Seq<MatchWindowModel>,
    w: MatchWindowModel,
)
    ensures
        match_report(saved, running).unmatched_snapshot.contains(w) <==> saved.contains(w)
            && !saved_keys(report_matches(saved, running)).contains(w.key),
        match_report(saved, running).unmatched_live.contains(w) <==> running.contains(w)
            && !running_keys(report_matches(saved, running)).contains(w.key),
        match_report(saved, running).matched.len() == report_matches(saved, running).len(),
{
    let found = report_matches(saved, running);
    seqs::lemma_filter_membership(saved, |x: MatchWindowModel| !saved_keys(found).contains(x.key), w);
    seqs::lemma_filter_membership(running, |x: MatchWindowModel| !running_keys(found).contains(x.key), w);
}

/// On either side, where the windows have different keys, matched and unmatched
/// windows together are all windows.
pub proof fn law_report_counts_add_up(saved: Seq<MatchWindowModel>, running: Seq<MatchWindowModel>)
    requires
        forall|i: int, j: int|
            0 <= i < j < saved.len() ==> (#[trigger] saved[i]).key != (#[trigger] saved[j]).key,
        forall|i: int, j: int|
            0 <= i < j < running.len() ==> (#[trigger] running[i]).key != (
            #[trigger] running[j]).key,
    ensures
        ({
            let report = match_report(saved, running);
            &&& report.matched.len() + report.unmatched_snapshot.len() == saved.len()
            &&& report.matched.len() + report.unmatched_live.len() == running.len()
        }),
{
    let f = |w: MatchWindowModel| as_matchable(w);
    let saved_m = saved.map_values(f);
    let running_m = running.map_values(f);
    let m = matching(saved_m, running_m);
    let found = report_matches(saved, running);
    law_no_window_is_used_twice(saved_m, running_m);
    let a = saved_keys(found);
    let b = running_keys(found);
    assert forall|i: int| 0 <= i < m.len() implies #[trigger] a[i] == saved[m[i].0].key && b[i]
        == running[m[i].1].key by {
        assert(found[i].0 == saved_m[m[i].0].key);
    }
    assert forall|i: int, j: int| 0 <= i < a.len() && 0 <= j < a.len() && i != j implies a[i]
        != a[j] && b[i] != b[j] by {
        let (x, y) = if i < j {
            (i, j)
        } else {
            (j, i)
        };
        assert(m[x].0 != m[y].0 && m[x].1 != m[y].1);
        assert(a[x] == saved[m[x].0].key && a[y] == saved[m[y].0].key);
    }
    let key = |w: MatchWindowModel| w.key;
    assert forall|k: int| 0 <= k < a.len() implies seqs::has_key(
        saved,
        key,
        #[trigger] a[k],
    ) by {
        assert(key(saved[m[k].0]) == a[k]);
    }
    assert forall|k: int| 0 <= k < b.len() implies seqs::has_key(
        running,
        key,
        #[trigger] b[k],
    ) by {
        assert(a[k] == saved[m[k].0].key);
        assert(key(running[m[k].1]) == b[k]);
    }
    seqs::lemma_count_left_over(saved, key, a, |w: MatchWindowModel| !a.contains(w.key));
    seqs::lemma_count_left_over(running, key, b, |w: MatchWindowModel| !b.contains(w.key));
}

/// Each line of a report shows windows with the matched keys, and plans a move
/// exactly where the saved window has a workspace that the running one is not
/// on.
pub proof fn law_report_lines(
    saved: Seq<MatchWindowModel>,
    running: Seq<MatchWindowModel>,
    i: int,
)
    requires
        0 <= i < match_report(saved, running).matched.len(),
    ensures
        ({
            let line = match_report(saved, running).matched[i];
            let found = report_matches(saved, running)[i];
            &&& saved.contains(line.snapshot) && line.snapshot.key == found.0
            &&& running.contains(line.live) && line.live.key == found.1
            &&& line.score == found.2 && line.score >= MATCH_SCORE_THRESHOLD
            &&& line.planned_workspace_move is Some <==> line.snapshot.workspace is Some
                && line.snapshot.workspace != line.live.workspace
        }),
{
    let f = |w: MatchWindowModel| as_matchable(w);
    let saved_m = saved.map_values(f);
    let running_m = running.map_values(f);
    lemma_matches_have_windows(saved_m, running_m);
    law_no_window_is_used_twice(saved_m, running_m);
    let found = report_matches(saved, running)[i];
    assert(matching(saved_m, running_m)[i] == matching(saved_m, running_m)[i]);
    let a = choose|a: int| 0 <= a < saved_m.len() && (#[trigger] saved_m[a]).key == found.0;
    assert(saved[a].key == found.0);
    lemma_window_with_key(saved, found.0);
    let b = choose|b: int| 0 <= b < running_m.len() && (#[trigger] running_m[b]).key == found.1;
    assert(running[b].key == found.1);
    lemma_window_with_key(running, found.1);
}

proof fn lemma_window_with_key(windows: Seq<MatchWindowModel>, key: Seq<char>)
    requires
        exists|i: int| 0 <= i < windows.len() && (#[trigger] windows[i]).key == key,
    ensures
        windows.contains(window_with_key(windows, key)),
        window_with_key(windows, key).key == key,
    decreases windows.len(),
{
    let last = windows.len() - 1;
    if windows.last().key != key {
        let i = choose|i: int| 0 <= i < windows.len() && (#[trigger] windows[i]).key == key;
        let rest = windows.drop_last();
        assert(rest[i] == windows[i]);
        lemma_window_with_key(rest, key);
        let k = choose|k: int| 0 <= k < rest.len() && rest[k] == window_with_key(rest, key);
        assert(windows[k] == window_with_key(windows, key));
    } else {
        assert(windows[last] == window_with_key(windows, key));
    }
}

/// A pair that reaches the threshold is accepted if neither of its windows has a
/// better partner: every other running window scores less with the saved one, or as
/// much and comes later, and every other saved window likewise with the running one.
pub proof fn law_best_partners_are_matched(
    saved: Seq<MatchableModel>,
    running: Seq<MatchableModel>,
    s: int,
    l: int,
)
    requires
        0 <= s < saved.len(),
        0 <= l < running.len(),
        score(running[l].identity, saved[s].identity) >= 50,
        forall|k: int|
            0 <= k < running.len() && k != l ==> {
                let other = score((#[trigger] running[k]).identity, saved[s].identity);
                let own = score(running[l].identity, saved[s].identity);
                other < own || (other == own && k > l)
            },
        forall|k: int|
            0 <= k < saved.len() && k != s ==> {
                let other = score(running[l].identity, (#[trigger] saved[k]).identity);
                let own = score(running[l].identity, saved[s].identity);
                other < own || (other == own && k > s)
            },
    ensures
        matching(saved, running).contains((s, l)),
{
    let weight = pair_weight(saved, running);
    law_greedy_matching_exists(weight, saved.len(), running.len());
    let m = matching(saved, running);
    let p: IndexPair = (s, l);
    assert(is_eligible(weight, saved.len(), running.len(), p));
    if !m.contains(p) {
        let i = choose|i: int|
            0 <= i < m.len() && comes_before(weight, #[trigger] m[i], p) && overlap(m[i], p);
        assert(is_eligible(weight, saved.len(), running.len(), m[i]));
        let q = m[i];
        if q.0 == s {
            if q.1 != l {
                assert(running[q.1] == running[q.1]);
            } else {
                assert(q == p);
            }
        } else {
            assert(saved[q.0] == saved[q.0]);
        }
    }
}

/// Accepted pairs come in the order of their scores, the best first.
pub proof fn law_matches_come_best_first(
    saved: Seq<MatchableModel>,
    running: Seq<MatchableModel>,
    i: int,
    j: int,
)
    requires
        0 <= i <= j < scored_matches(saved, running).len(),
    ensures
        scored_matches(saved, running)[i].2 >= scored_matches(saved, running)[j].2 >= 50,
{
    let weight = pair_weight(saved, running);
    law_greedy_matching_exists(weight, saved.len(), running.len());
    let m = matching(saved, running);
    assert(is_eligible(weight, saved.len(), running.len(), m[j]));
    if i < j {
        assert(comes_before(weight, m[i], m[j]));
    }
}

/// What an accepted pair says: the keys of a saved and of a running window, and how
/// well these two match.
pub proof fn law_match_names_its_windows(
    saved: Seq<MatchableModel>,
    running: Seq<MatchableModel>,
    i: int,
)
    requires
        0 <= i < scored_matches(saved, running).len(),
    ensures
        exists|s: int, l: int|
            0 <= s < saved.len() && 0 <= l < running.len() && scored_matches(saved, running)[i] == (
                (#[trigger] saved[s]).key,
                (#[trigger] running[l]).key,
                score(running[l].identity, saved[s].identity),
            ),
{
    let weight = pair_weight(saved, running);
    law_greedy_matching_exists(weight, saved.len(), running.len());
    let m = matching(saved, running);
    assert(is_eligible(weight, saved.len(), running.len(), m[i]));
    let s = m[i].0;
    let l = m[i].1;
    assert(scored_matches(saved, running)[i] == (
        saved[s].key,
        running[l].key,
        score(running[l].identity, saved[s].identity),
    ));
}

proof fn lemma_same_case_reflexive(a: Seq<char>)
    ensures
        text::same_ignoring_ascii_case(a, a),
{
}

/// The points of a window against itself: for what is given of path, name and class,
/// and for a title with a letter or digit in it.
pub proof fn law_identical_windows_score_in_full(i: MatchIdentityModel)
    ensures
        score(i, i) == (if i.process_path is Some {
            100int
        } else {
            0
        }) + 50 + (if i.class_name is Some {
            25int
        } else {
            0
        }) + (if i.title is Some && normalized_title(i.title->0).len() > 0 {
            40int
        } else {
            0
        }),
{
    lemma_same_case_reflexive(i.process_name);
    if i.process_path is Some {
        lemma_same_case_reflexive(i.process_path->0);
    }
}

/// No window scores more with another than with itself, whichever of the two is the
/// saved one. It scores less with one that differs in what it has: the title as
/// compared, the class, the process name, or the program's path.
pub proof fn law_difference_costs_points(a: MatchIdentityModel, b: MatchIdentityModel)
    ensures
        score(a, b) <= score(a, a),
        score(a, b) <= score(b, b),
        differs(a, b) ==> score(a, b) < score(a, a),
        differs(b, a) ==> score(a, b) < score(b, b),
{
    law_identical_windows_score_in_full(a);
    law_identical_windows_score_in_full(b);
    if let (Some(c), Some(t)) = (a.process_path, b.process_path) {
        lemma_same_program_symmetric(c, t);
        lemma_same_program_symmetric(t, c);
    }
    lemma_same_case_symmetric(a.process_name, b.process_name);
    lemma_same_case_symmetric(b.process_name, a.process_name);
}

/// Whether `b` lacks or contradicts something that `a` is recognised by.
pub open spec fn differs(a: MatchIdentityModel, b: MatchIdentityModel) -> bool {
    ||| a.class_name is Some && b.class_name != a.class_name
    ||| !text::same_ignoring_ascii_case(a.process_name, b.process_name)
    ||| a.process_path is Some && (b.process_path is None || !same_program_path(
        a.process_path->0,
        b.process_path->0,
    ))
    ||| a.title is Some && normalized_title(a.title->0).len() > 0 && (b.title is None
        || normalized_title(b.title->0) != normalized_title(a.title->0))
}

proof fn lemma_same_case_symmetric(a: Seq<char>, b: Seq<char>)
    ensures
        text::same_ignoring_ascii_case(a, b) ==> text::same_ignoring_ascii_case(b, a),
{
}

proof fn lemma_same_but_at_symmetric(a: Seq<Seq<char>>, b: Seq<Seq<char>>, at: int)
    requires
        same_but_at(a, b, at),
    ensures
        same_but_at(b, a, at),
{
    assert forall|j: int| 0 <= j < b.len() && j != at implies text::same_ignoring_ascii_case(
        #[trigger] b[j],
        a[j],
    ) by {
        lemma_same_case_symmetric(a[j], b[j]);
    }
}

proof fn lemma_same_program_symmetric(c: Seq<char>, t: Seq<char>)
    ensures
        same_program_path(c, t) ==> same_program_path(t, c),
{
    lemma_same_case_symmetric(c, t);
    let x = text::fields(c, '\\');
    let y = text::fields(t, '\\');
    if exists|at: int| #[trigger] same_package_at(x, y, at) {
        let at = choose|at: int| #[trigger] same_package_at(x, y, at);
        lemma_same_but_at_symmetric(x, y, at);
        lemma_same_but_at_symmetric(text::fields(x[at], '_'), text::fields(y[at], '_'), 1);
        assert(text::same_ignoring_ascii_case(x[at - 1], y[at - 1]));
        lemma_same_case_symmetric(x[at - 1], y[at - 1]);
        assert(same_package_at(y, x, at));
    }
}

/// Whether two paths differ in more than the version of a store package: they have
/// another number of components, or a component differs that does not stand right below
/// `WindowsApps`.
pub open spec fn lead_elsewhere(c: Seq<char>, t: Seq<char>) -> bool {
    let x = text::fields(c, '\\');
    let y = text::fields(t, '\\');
    x.len() != y.len() || exists|j: int|
        0 <= j < x.len() && !text::same_ignoring_ascii_case(#[trigger] x[j], y[j]) && (j == 0
            || !text::same_ignoring_ascii_case(x[j - 1], "WindowsApps"@))
}

/// Paths that lead elsewhere score nothing, and neither does a path that is not known.
pub proof fn law_other_programs_score_nothing(c: Seq<char>, t: Seq<char>)
    requires
        lead_elsewhere(c, t),
        !text::same_ignoring_ascii_case(c, t),
    ensures
        path_points(Some(c), Some(t)) == 0,
        path_points(None, Some(t)) == 0,
        path_points(Some(c), None) == 0,
        path_points(Some(c), Some(c)) == 100,
{
    let x = text::fields(c, '\\');
    let y = text::fields(t, '\\');
    lemma_same_case_reflexive(c);
    if exists|at: int| #[trigger] same_package_at(x, y, at) {
        let at = choose|at: int| #[trigger] same_package_at(x, y, at);
        let j = choose|j: int|
            0 <= j < x.len() && !text::same_ignoring_ascii_case(#[trigger] x[j], y[j]) && (j == 0
                || !text::same_ignoring_ascii_case(x[j - 1], "WindowsApps"@));
        assert(text::same_ignoring_ascii_case(x[at - 1], "WindowsApps"@));
        assert(j == at);
    }
}

/// Titles as compared, by how much they have in common: one that holds the other scores
/// twenty, and one that only begins like it ten.
pub proof fn law_similar_titles_score_less(c: Seq<char>, t: Seq<char>, x: Seq<char>, y: Seq<char>)
    requires
        normalized_title(c).len() > 0,
        normalized_title(t).len() > 0,
    ensures
        normalized_title(c) == normalized_title(t) ==> title_points(Some(c), Some(t)) == 40,
        normalized_title(c) != normalized_title(t) && (normalized_title(c) == x + normalized_title(
            t,
        ) + y || normalized_title(t) == x + normalized_title(c) + y) ==> title_points(
            Some(c),
            Some(t),
        ) == 20,
        normalized_title(c)[0] != normalized_title(t)[0] ==> title_points(Some(c), Some(t)) == 0
            || title_points(Some(c), Some(t)) == 20,
        title_points(Some(c), None) == 0,
        title_points(None, Some(t)) == 0,
{
    let a = normalized_title(c);
    let b = normalized_title(t);
    if a == x + b + y {
        assert(a.subrange(x.len() as int, (x.len() + b.len()) as int) =~= b);
        assert(text::occurs_at(a, b, x.len() as int));
    }
    if b == x + a + y {
        assert(b.subrange(x.len() as int, (x.len() + a.len()) as int) =~= a);
        assert(text::occurs_at(b, a, x.len() as int));
    }
    if a[0] != b[0] && same_beginning(a, b) {
        let shorter = if a.len() < b.len() {
            a.len()
        } else {
            b.len()
        };
        let prefix = if shorter < 12 {
            shorter
        } else {
            12
        };
        assert(a.take(prefix as int)[0] == b.take(prefix as int)[0]);
    }
}

/// Punctuation in a title does not matter.
pub proof fn law_punctuation_does_not_matter(before: Seq<char>, mark: char, after: Seq<char>)
    requires
        !text::is_alnum(mark),
        !text::is_space(mark),
    ensures
        normalized_title(before + seq![mark] + after) == normalized_title(before + after),
{
    let keep = |c: char| text::is_alnum(c) || text::is_space(c);
    Seq::filter_distributes_over_add(before + seq![mark], after, keep);
    Seq::filter_distributes_over_add(before, seq![mark], keep);
    Seq::filter_distributes_over_add(before, after, keep);
    assert(seq![mark].filter(keep) =~= Seq::<char>::empty()) by {
        reveal_with_fuel(Seq::filter, 2);
        let one = seq![mark];
        assert(one.drop_last() =~= Seq::<char>::empty());
        assert(one.last() == mark);
        assert(!keep(mark));
        assert(one.drop_last().filter(keep) =~= Seq::<char>::empty());
    }
    assert(title_chars(before + seq![mark] + after) =~= title_chars(before + after));
}

/// A planned move leads from where the running window is to where the saved one was.
pub proof fn law_planned_move_leads_home(saved: MatchWindowModel, running: MatchWindowModel)
    ensures
        planned_move(saved, running) matches Some(m) ==> saved.workspace == Some(m.to) && m.from
            == running.workspace && m.from != Some(m.to),
        planned_move(saved, running) is None ==> saved.workspace is None || running.workspace
            == saved.workspace,
{
}

/// Titles of twelve characters and more begin alike if the first twelve are the same, and
/// short ones if all of the shorter one is; of one with fewer than four nothing is said.
pub proof fn law_twelve_characters_tell_titles_apart(a: Seq<char>, b: Seq<char>)
    ensures
        a.len() >= 12 && b.len() >= 12 && a.take(12) == b.take(12) ==> same_beginning(a, b),
        a.len() >= 12 && b.len() >= 12 && a[11] != b[11] ==> !same_beginning(a, b),
        a.len() < 4 || b.len() < 4 ==> !same_beginning(a, b),
        4 <= a.len() <= 12 && a.is_prefix_of(b) ==> same_beginning(a, b),
{
    if a.len() >= 12 && b.len() >= 12 && a[11] != b[11] {
        assert(a.take(12)[11] != b.take(12)[11]);
    }
    if a.is_prefix_of(b) {
        assert(a.take(a.len() as int) =~= b.take(a.len() as int));
    }
}

} // verus!

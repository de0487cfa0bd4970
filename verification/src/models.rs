//! The record types that ship with the store: requirement documents, the
//! task specifications made from them, executions of those, and what goes
//! with them.

use crate::clock::{reading_to_stamp, since_epoch, system_now, whole_millis};
use crate::jsonl::{HasId, HasUpdatedAt};
use crate::record::{field_views, IndexField, IndexValue, ValueView};
use crate::text::chars_of;
use vstd::prelude::*;

verus! {

/// A character with an ASCII capital letter brought to lower case.
pub open spec fn lower(c: char) -> char {
    if c == 'A' { 'a' } else if c == 'B' { 'b' } else if c == 'C' { 'c' } else if c == 'D' { 'd' }
    else if c == 'E' { 'e' } else if c == 'F' { 'f' } else if c == 'G' { 'g' } else if c == 'H' { 'h' }
    else if c == 'I' { 'i' } else if c == 'J' { 'j' } else if c == 'K' { 'k' } else if c == 'L' { 'l' }
    else if c == 'M' { 'm' } else if c == 'N' { 'n' } else if c == 'O' { 'o' } else if c == 'P' { 'p' }
    else if c == 'Q' { 'q' } else if c == 'R' { 'r' } else if c == 'S' { 's' } else if c == 'T' { 't' }
    else if c == 'U' { 'u' } else if c == 'V' { 'v' } else if c == 'W' { 'w' } else if c == 'X' { 'x' }
    else if c == 'Y' { 'y' } else if c == 'Z' { 'z' } else { c }
}

/// A text with its ASCII capital letters brought to lower case.
pub open spec fn lowered(s: Seq<char>) -> Seq<char> {
    s.map_values(|c: char| lower(c))
}

fn lower_char(c: char) -> (r: char)
    ensures
        r == lower(c),
{
    if c == 'A' { 'a' } else if c == 'B' { 'b' } else if c == 'C' { 'c' } else if c == 'D' { 'd' }
    else if c == 'E' { 'e' } else if c == 'F' { 'f' } else if c == 'G' { 'g' } else if c == 'H' { 'h' }
    else if c == 'I' { 'i' } else if c == 'J' { 'j' } else if c == 'K' { 'k' } else if c == 'L' { 'l' }
    else if c == 'M' { 'm' } else if c == 'N' { 'n' } else if c == 'O' { 'o' } else if c == 'P' { 'p' }
    else if c == 'Q' { 'q' } else if c == 'R' { 'r' } else if c == 'S' { 's' } else if c == 'T' { 't' }
    else if c == 'U' { 'u' } else if c == 'V' { 'v' } else if c == 'W' { 'w' } else if c == 'X' { 'x' }
    else if c == 'Y' { 'y' } else if c == 'Z' { 'z' } else { c }
}

/// Brings the ASCII capital letters of a text to lower case.
pub fn to_lower(s: &str) -> (r: String)
    ensures
        r@ == lowered(s@),
{
    let v = chars_of(s);
    let mut r = String::new();
    let mut i: usize = 0;
    while i < v.len()
        invariant
            i <= v.len(),
            v@ == s@,
            r@ == lowered(v@.take(i as int)),
        decreases v.len() - i,
    {
        r.push(lower_char(v[i]));
        i = i + 1;
        assert(lowered(v@.take(i as int)) =~= lowered(v@.take(i - 1)).push(lower(v@[i - 1])));
    }
    assert(v@.take(i as int) =~= v@);
    r
}

fn is_word(s: &String, word: &str) -> (r: bool)
    ensures
        r == (s@ == word@),
{
    let w = String::from_str(word);
    *s == w
}

/// How far a requirements document has come.
#[derive(Debug, Clone, Copy, PartialEq, Eq, Structural)]
pub enum PrdStatus {
    Draft,
    Ready,
    Active,
    Complete,
    Cancelled,
}

impl PrdStatus {
    /// The status as the log and the cache write it.
    pub open spec fn text(self) -> Seq<char> {
        match self {
            PrdStatus::Draft => "draft"@,
            PrdStatus::Ready => "ready"@,
            PrdStatus::Active => "active"@,
            PrdStatus::Complete => "complete"@,
            PrdStatus::Cancelled => "cancelled"@,
        }
    }

    /// The status that a text names, if it names one.
    pub open spec fn named(s: Seq<char>) -> Option<PrdStatus> {
        if s == "draft"@ {
            Some(PrdStatus::Draft)
        } else if s == "ready"@ {
            Some(PrdStatus::Ready)
        } else if s == "active"@ {
            Some(PrdStatus::Active)
        } else if s == "complete"@ {
            Some(PrdStatus::Complete)
        } else if s == "cancelled"@ {
            Some(PrdStatus::Cancelled)
        } else {
            None
        }
    }

    /// The status as the log and the cache write it.
    pub fn as_str(self) -> (r: &'static str)
        ensures
            r@ == self.text(),
    {
        match self {
            PrdStatus::Draft => "draft",
            PrdStatus::Ready => "ready",
            PrdStatus::Active => "active",
            PrdStatus::Complete => "complete",
            PrdStatus::Cancelled => "cancelled",
        }
    }

    /// The status as text.
    pub fn to_string(&self) -> (r: String)
        ensures
            r@ == self.text(),
    {
        String::from_str(self.as_str())
    }

    fn exact(s: &String) -> (r: Option<PrdStatus>)
        ensures
            r == Self::named(s@),
    {
        if is_word(s, "draft") {
            Some(PrdStatus::Draft)
        } else if is_word(s, "ready") {
            Some(PrdStatus::Ready)
        } else if is_word(s, "active") {
            Some(PrdStatus::Active)
        } else if is_word(s, "complete") {
            Some(PrdStatus::Complete)
        } else if is_word(s, "cancelled") {
            Some(PrdStatus::Cancelled)
        } else {
            None
        }
    }

    /// Reads a status as a person writes it: in any case of letters; a text
    /// that names no status is refused.
    pub fn parse(s: &str) -> (r: Option<PrdStatus>)
        ensures
            r == Self::named(lowered(s@)),
    {
        let l = to_lower(s);
        Self::exact(&l)
    }

    /// Reads a status as the cache holds it; a text that names none counts
    /// as `Draft`.
    pub fn from_stored(s: &str) -> (r: PrdStatus)
        ensures
            r == match Self::named(s@) {
                Some(status) => status,
                None => PrdStatus::Draft,
            },
    {
        match Self::exact(&String::from_str(s)) {
            Some(status) => status,
            None => PrdStatus::Draft,
        }
    }
}

/// How far a task specification has come.
#[derive(Debug, Clone, Copy, PartialEq, Eq, Structural)]
pub enum TaskSpecStatus {
    Pending,
    Running,
    Complete,
    Failed,
}

impl TaskSpecStatus {
    /// The status as the log and the cache write it.
    pub open spec fn text(self) -> Seq<char> {
        match self {
            TaskSpecStatus::Pending => "pending"@,
            TaskSpecStatus::Running => "running"@,
            TaskSpecStatus::Complete => "complete"@,
            TaskSpecStatus::Failed => "failed"@,
        }
    }

    /// The status that a text names, if it names one.
    pub open spec fn named(s: Seq<char>) -> Option<TaskSpecStatus> {
        if s == "pending"@ {
            Some(TaskSpecStatus::Pending)
        } else if s == "running"@ {
            Some(TaskSpecStatus::Running)
        } else if s == "complete"@ {
            Some(TaskSpecStatus::Complete)
        } else if s == "failed"@ {
            Some(TaskSpecStatus::Failed)
        } else {
            None
        }
    }

    /// The status as the log and the cache write it.
    pub fn as_str(self) -> (r: &'static str)
        ensures
            r@ == self.text(),
    {
        match self {
            TaskSpecStatus::Pending => "pending",
            TaskSpecStatus::Running => "running",
            TaskSpecStatus::Complete => "complete",
            TaskSpecStatus::Failed => "failed",
        }
    }

    /// The status as text.
    pub fn to_string(&self) -> (r: String)
        ensures
            r@ == self.text(),
    {
        String::from_str(self.as_str())
    }

    /// Reads a status as the cache holds it; a text that names none counts
    /// as `Pending`.
    pub fn from_stored(s: &str) -> (r: TaskSpecStatus)
        ensures
            r == match Self::named(s@) {
                Some(status) => status,
                None => TaskSpecStatus::Pending,
            },
    {
        let s = String::from_str(s);
        if is_word(&s, "pending") {
            TaskSpecStatus::Pending
        } else if is_word(&s, "running") {
            TaskSpecStatus::Running
        } else if is_word(&s, "complete") {
            TaskSpecStatus::Complete
        } else if is_word(&s, "failed") {
            TaskSpecStatus::Failed
        } else {
            TaskSpecStatus::Pending
        }
    }
}

/// How an execution stands.
#[derive(Debug, Clone, Copy, PartialEq, Eq, Structural)]
pub enum ExecStatus {
    Running,
    Paused,
    Complete,
    Failed,
    Stopped,
}

impl ExecStatus {
    /// The status as the log and the cache write it.
    pub open spec fn text(self) -> Seq<char> {
        match self {
            ExecStatus::Running => "running"@,
            ExecStatus::Paused => "paused"@,
            ExecStatus::Complete => "complete"@,
            ExecStatus::Failed => "failed"@,
            ExecStatus::Stopped => "stopped"@,
        }
    }

    /// The status that a text names, if it names one.
    pub open spec fn named(s: Seq<char>) -> Option<ExecStatus> {
        if s == "running"@ {
            Some(ExecStatus::Running)
        } else if s == "paused"@ {
            Some(ExecStatus::Paused)
        } else if s == "complete"@ {
            Some(ExecStatus::Complete)
        } else if s == "failed"@ {
            Some(ExecStatus::Failed)
        } else if s == "stopped"@ {
            Some(ExecStatus::Stopped)
        } else {
            None
        }
    }

    /// The status as the log and the cache write it.
    pub fn as_str(self) -> (r: &'static str)
        ensures
            r@ == self.text(),
    {
        match self {
            ExecStatus::Running => "running",
            ExecStatus::Paused => "paused",
            ExecStatus::Complete => "complete",
            ExecStatus::Failed => "failed",
            ExecStatus::Stopped => "stopped",
        }
    }

    /// The status as text.
    pub fn to_string(&self) -> (r: String)
        ensures
            r@ == self.text(),
    {
        String::from_str(self.as_str())
    }

    fn exact(s: &String) -> (r: Option<ExecStatus>)
        ensures
            r == Self::named(s@),
    {
        if is_word(s, "running") {
            Some(ExecStatus::Running)
        } else if is_word(s, "paused") {
            Some(ExecStatus::Paused)
        } else if is_word(s, "complete") {
            Some(ExecStatus::Complete)
        } else if is_word(s, "failed") {
            Some(ExecStatus::Failed)
        } else if is_word(s, "stopped") {
            Some(ExecStatus::Stopped)
        } else {
            None
        }
    }

    /// Reads a status as a person writes it: in any case of letters; a text
    /// that names no status is refused.
    pub fn parse(s: &str) -> (r: Option<ExecStatus>)
        ensures
            r == Self::named(lowered(s@)),
    {
        let l = to_lower(s);
        Self::exact(&l)
    }

    /// Reads a status as the cache holds it; a text that names none counts
    /// as `Running`.
    pub fn from_stored(s: &str) -> (r: ExecStatus)
        ensures
            r == match Self::named(s@) {
                Some(status) => status,
                None => ExecStatus::Running,
            },
    {
        match Self::exact(&String::from_str(s)) {
            Some(status) => status,
            None => ExecStatus::Running,
        }
    }
}

/// What one execution asks of another.
#[derive(Debug, Clone, Copy, PartialEq, Eq, Structural)]
pub enum DependencyType {
    Notify,
    Query,
    Share,
}

impl DependencyType {
    /// The kind as the log writes it.
    pub open spec fn text(self) -> Seq<char> {
        match self {
            DependencyType::Notify => "notify"@,
            DependencyType::Query => "query"@,
            DependencyType::Share => "share"@,
        }
    }

    /// The kind as the log writes it.
    pub fn as_str(self) -> (r: &'static str)
        ensures
            r@ == self.text(),
    {
        match self {
            DependencyType::Notify => "notify",
            DependencyType::Query => "query",
            DependencyType::Share => "share",
        }
    }
}

fn text_field(name: &str, value: &str) -> (f: IndexField)
    ensures
        f@ == (name@, ValueView::Text(value@)),
{
    IndexField { name: String::from_str(name), value: IndexValue::String(String::from_str(value)) }
}

/// A product requirements document.
#[derive(Debug, Clone)]
pub struct Prd {
    pub id: String,
    pub title: String,
    pub description: String,
    pub created_at: i64,
    pub updated_at: i64,
    pub status: PrdStatus,
    pub review_passes: u8,
    pub content: String,
}

impl HasId for Prd {
    fn id(&self) -> (r: String)
        ensures
            r@ == self.id@,
    {
        self.id.clone()
    }
}

impl HasUpdatedAt for Prd {
    fn updated_at(&self) -> (r: i64)
        ensures
            r == self.updated_at,
    {
        self.updated_at
    }
}

impl Prd {
    /// The collection that holds the records of this type.
    pub fn collection_name() -> (r: &'static str)
        ensures
            r@ == "prds"@,
    {
        "prds"
    }

    /// A requirements document is found by its status.
    pub fn indexed_fields(&self) -> (r: Vec<IndexField>)
        ensures
            field_views(r@) == seq![("status"@, ValueView::Text(self.status.text()))],
    {
        let mut r: Vec<IndexField> = Vec::new();
        r.push(text_field("status", self.status.as_str()));
        assert(field_views(r@) =~= seq![("status"@, ValueView::Text(self.status.text()))]);
        r
    }
}

/// A task specification, made from a requirements document.
#[derive(Debug, Clone)]
pub struct TaskSpec {
    pub id: String,
    pub prd_id: String,
    pub phase_name: String,
    pub description: String,
    pub created_at: i64,
    pub updated_at: i64,
    pub status: TaskSpecStatus,
    pub workflow_name: Option<String>,
    pub assigned_to: Option<String>,
    pub content: String,
}

impl HasId for TaskSpec {
    fn id(&self) -> (r: String)
        ensures
            r@ == self.id@,
    {
        self.id.clone()
    }
}

impl HasUpdatedAt for TaskSpec {
    fn updated_at(&self) -> (r: i64)
        ensures
            r == self.updated_at,
    {
        self.updated_at
    }
}

impl TaskSpec {
    /// The collection that holds the records of this type.
    pub fn collection_name() -> (r: &'static str)
        ensures
            r@ == "task_specs"@,
    {
        "task_specs"
    }

    /// A task specification is found by its document and by its status.
    pub fn indexed_fields(&self) -> (r: Vec<IndexField>)
        ensures
            field_views(r@) == seq![
                ("prd_id"@, ValueView::Text(self.prd_id@)),
                ("status"@, ValueView::Text(self.status.text())),
            ],
    {
        let mut r: Vec<IndexField> = Vec::new();
        r.push(text_field("prd_id", self.prd_id.as_str()));
        r.push(text_field("status", self.status.as_str()));
        assert(field_views(r@) =~= seq![
            ("prd_id"@, ValueView::Text(self.prd_id@)),
            ("status"@, ValueView::Text(self.status.text())),
        ]);
        r
    }
}

/// One run of a task specification.
#[derive(Debug, Clone)]
pub struct Execution {
    pub id: String,
    pub ts_id: String,
    pub worktree_path: String,
    pub branch_name: String,
    pub status: ExecStatus,
    pub started_at: i64,
    pub updated_at: i64,
    pub completed_at: Option<i64>,
    pub current_phase: Option<String>,
    pub iteration_count: u32,
    pub error_message: Option<String>,
}

impl HasId for Execution {
    fn id(&self) -> (r: String)
        ensures
            r@ == self.id@,
    {
        self.id.clone()
    }
}

impl HasUpdatedAt for Execution {
    fn updated_at(&self) -> (r: i64)
        ensures
            r == self.updated_at,
    {
        self.updated_at
    }
}

impl Execution {
    /// The collection that holds the records of this type.
    pub fn collection_name() -> (r: &'static str)
        ensures
            r@ == "executions"@,
    {
        "executions"
    }

    /// An execution is found by its task specification and by its status.
    pub fn indexed_fields(&self) -> (r: Vec<IndexField>)
        ensures
            field_views(r@) == seq![
                ("ts_id"@, ValueView::Text(self.ts_id@)),
                ("status"@, ValueView::Text(self.status.text())),
            ],
    {
        let mut r: Vec<IndexField> = Vec::new();
        r.push(text_field("ts_id", self.ts_id.as_str()));
        r.push(text_field("status", self.status.as_str()));
        assert(field_views(r@) =~= seq![
            ("ts_id"@, ValueView::Text(self.ts_id@)),
            ("status"@, ValueView::Text(self.status.text())),
        ]);
        r
    }
}

/// What one execution waits for from another.
#[derive(Debug, Clone)]
pub struct Dependency {
    pub id: String,
    pub from_exec_id: String,
    pub to_exec_id: String,
    pub dependency_type: DependencyType,
    pub created_at: i64,
    pub resolved_at: Option<i64>,
    pub payload: Option<String>,
}

impl HasId for Dependency {
    fn id(&self) -> (r: String)
        ensures
            r@ == self.id@,
    {
        self.id.clone()
    }
}

/// A dependency does not change once made: the time it was made stands for
/// the time of its last change.
impl HasUpdatedAt for Dependency {
    fn updated_at(&self) -> (r: i64)
        ensures
            r == self.created_at,
    {
        self.created_at
    }
}

/// A workflow definition.
#[derive(Debug, Clone)]
pub struct Workflow {
    pub id: String,
    pub name: String,
    pub version: String,
    pub created_at: i64,
    pub updated_at: i64,
    pub content: String,
}

impl HasId for Workflow {
    fn id(&self) -> (r: String)
        ensures
            r@ == self.id@,
    {
        self.id.clone()
    }
}

impl HasUpdatedAt for Workflow {
    fn updated_at(&self) -> (r: i64)
        ensures
            r == self.updated_at,
    {
        self.updated_at
    }
}

/// What is known of one repository.
#[derive(Debug, Clone)]
pub struct RepoState {
    pub repo_path: String,
    pub last_synced_commit: String,
    pub updated_at: i64,
}

/// A repository is known by its path.
impl HasId for RepoState {
    fn id(&self) -> (r: String)
        ensures
            r@ == self.repo_path@,
    {
        self.repo_path.clone()
    }
}

impl HasUpdatedAt for RepoState {
    fn updated_at(&self) -> (r: i64)
        ensures
            r == self.updated_at,
    {
        self.updated_at
    }
}

/// The time now, in milliseconds since the epoch: what the system clock
/// reads, 0 where it stands before the epoch. Whatever the clock reads, the
/// result is not negative.
pub fn now_ms() -> (r: i64)
    ensures
        r >= 0,
{
    let t = system_now();
    let reading = match since_epoch(&t) {
        Ok(d) => Some(whole_millis(&d)),
        Err(_) => None,
    };
    reading_to_stamp(reading)
}

} // verus!

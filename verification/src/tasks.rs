//! The background task board: transcription and screenshot analysis report
//! their state, progress and partial text here while they run.
use vstd::prelude::*;
use crate::text::{chars_of, decimal, less_than, push_decimal, push_str, seq_lt, string_of};

verus! {

/// The state of one background task.
pub struct TaskStatus {
    pub id: String,
    pub kind: String,
    pub state: String,
    pub message: String,
    pub progress: u8,
    pub partial: String,
    pub session_slug: Option<String>,
}

impl Clone for TaskStatus {
    fn clone(&self) -> (r: Self)
        ensures
            r == *self,
    {
        TaskStatus {
            id: self.id.clone(),
            kind: self.kind.clone(),
            state: self.state.clone(),
            message: self.message.clone(),
            progress: self.progress,
            partial: self.partial.clone(),
            session_slug: match &self.session_slug {
                Some(s) => Some(s.clone()),
                None => None,
            },
        }
    }
}

/// The tasks, kept in the order of their ids (as a `BTreeMap` keeps them).
pub struct TaskRegistry {
    tasks: Vec<TaskStatus>,
}

/// The ids strictly increase, so no id is there twice.
pub open spec fn ids_sorted(s: Seq<TaskStatus>) -> bool {
    forall|i: int, j: int| 0 <= i < j < s.len() ==> seq_lt(#[trigger] s[i].id@, #[trigger] s[j].id@)
}

/// Every task's progress is at most 100.
pub open spec fn progress_bounded(s: Seq<TaskStatus>) -> bool {
    forall|i: int| 0 <= i < s.len() ==> (#[trigger] s[i]).progress <= 100
}

/// The place of a task of `s` with this id.
pub open spec fn id_index(s: Seq<TaskStatus>, id: Seq<char>) -> int {
    choose|i: int| 0 <= i < s.len() && s[i].id@ == id
}

/// A task of `s` with this id.
pub open spec fn task_with_id(s: Seq<TaskStatus>, id: Seq<char>) -> TaskStatus {
    s[id_index(s, id)]
}

/// The tasks by id.
pub open spec fn tasks_by_id(s: Seq<TaskStatus>) -> Map<Seq<char>, TaskStatus> {
    Map::new(
        |id: Seq<char>| exists|i: int| 0 <= i < s.len() && s[i].id@ == id,
        |id: Seq<char>| task_with_id(s, id),
    )
}

pub proof fn lemma_ids_distinct(s: Seq<TaskStatus>, i: int, j: int)
    requires
        ids_sorted(s),
        0 <= i < s.len(),
        0 <= j < s.len(),
        i != j,
    ensures
        s[i].id@ != s[j].id@,
{
    if i < j {
        assert(seq_lt(s[i].id@, s[j].id@));
        crate::text::lemma_seq_lt_irreflexive(s[i].id@);
    } else {
        assert(seq_lt(s[j].id@, s[i].id@));
        crate::text::lemma_seq_lt_irreflexive(s[j].id@);
    }
}

pub proof fn lemma_tasks_by_id_at(s: Seq<TaskStatus>, i: int)
    requires
        ids_sorted(s),
        0 <= i < s.len(),
    ensures
        tasks_by_id(s).contains_key(s[i].id@),
        tasks_by_id(s)[s[i].id@] == s[i],
{
    let id = s[i].id@;
    assert(tasks_by_id(s).dom().contains(id));
    assert(0 <= i < s.len() && s[i].id@ == id);
    let j = id_index(s, id);
    assert(0 <= j < s.len() && s[j].id@ == id);
    assert(tasks_by_id(s)[id] == task_with_id(s, id));
    assert(task_with_id(s, id) == s[j]);
    if j != i {
        lemma_ids_distinct(s, i, j);
    }
}

/// No task has an id that `position` passed over or stopped before.
proof fn lemma_absent(s: Seq<TaskStatus>, id: Seq<char>, k: int)
    requires
        ids_sorted(s),
        0 <= k <= s.len(),
        forall|i: int| 0 <= i < k ==> seq_lt(#[trigger] s[i].id@, id),
        k < s.len() ==> seq_lt(id, s[k].id@),
    ensures
        !tasks_by_id(s).contains_key(id),
{
    if tasks_by_id(s).contains_key(id) {
        let i = choose|i: int| 0 <= i < s.len() && s[i].id@ == id;
        if i < k {
            crate::text::lemma_seq_lt_irreflexive(id);
        } else {
            if i > k {
                crate::text::lemma_seq_lt_transitive(id, s[k].id@, s[i].id@);
            }
            crate::text::lemma_seq_lt_irreflexive(id);
        }
    }
}

impl TaskRegistry {
    #[verifier::type_invariant]
    spec fn well_formed(self) -> bool {
        ids_sorted(self.tasks@) && progress_bounded(self.tasks@)
    }

    /// The tasks in id order.
    pub closed spec fn entries(&self) -> Seq<TaskStatus> {
        self.tasks@
    }

    /// The tasks by id.
    pub open spec fn view(&self) -> Map<Seq<char>, TaskStatus> {
        tasks_by_id(self.entries())
    }

    /// An empty board.
    pub fn new() -> (r: Self)
        ensures
            r@ == Map::<Seq<char>, TaskStatus>::empty(),
    {
        let r = TaskRegistry { tasks: Vec::new() };
        proof {
            assert(r@ =~= Map::<Seq<char>, TaskStatus>::empty());
        }
        r
    }

    /// Where the task with this id is, or where it would go.
    fn position(&self, id: &Vec<char>) -> (r: (usize, bool))
        ensures
            r.0 <= self.entries().len(),
            forall|i: int| 0 <= i < r.0 ==> seq_lt(#[trigger] self.entries()[i].id@, id@),
            r.1 ==> r.0 < self.entries().len() && self.entries()[r.0 as int].id@ == id@,
            !r.1 ==> (r.0 < self.entries().len() ==> seq_lt(id@, self.entries()[r.0 as int].id@)),
    {
        proof {
            use_type_invariant(self);
        }
        let mut k: usize = 0;
        while k < self.tasks.len() && less_than(&chars_of(self.tasks[k].id.as_str()), id)
            invariant
                k <= self.tasks@.len(),
                forall|i: int| 0 <= i < k ==> seq_lt(#[trigger] self.tasks@[i].id@, id@),
            decreases self.tasks.len() - k,
        {
            k += 1;
        }
        if k < self.tasks.len() {
            let here = chars_of(self.tasks[k].id.as_str());
            if less_than(id, &here) {
                (k, false)
            } else {
                proof {
                    if id@ != here@ {
                        crate::text::lemma_seq_lt_total(id@, here@);
                    }
                }
                (k, true)
            }
        } else {
            (k, false)
        }
    }
}

/// The id of a task made at a given time: `task-{nanoseconds}`.
pub open spec fn task_id_text(nanos: nat) -> Seq<char> {
    "task-"@ + decimal(nanos)
}

/// A new task: queued, progress 0, no partial text yet.
pub open spec fn new_task(t: TaskStatus, nanos: nat, kind: Seq<char>, session_slug: Option<String>, message: Seq<char>) -> bool {
    &&& t.id@ == task_id_text(nanos)
    &&& t.kind@ == kind
    &&& t.state@ == "queued"@
    &&& t.message@ == message
    &&& t.progress == 0
    &&& t.partial@.len() == 0
    &&& t.session_slug == session_slug
}

/// Puts a task on the board under its id, in place of one with the same id.
fn upsert(tasks: &mut TaskRegistry, task: TaskStatus)
    requires
        task.progress <= 100,
    ensures
        final(tasks)@ == old(tasks)@.insert(task.id@, task),
{
    proof {
        use_type_invariant(&*tasks);
    }
    let idc = chars_of(task.id.as_str());
    let (k, found) = tasks.position(&idc);
    let ghost old_s = tasks.tasks@;
    let ghost tid = task.id@;
    let mut v: Vec<TaskStatus> = Vec::new();
    std::mem::swap(&mut v, &mut tasks.tasks);
    if found {
        v.set(k, task);
        proof {
            let s = v@;
            assert forall|i: int, j: int| 0 <= i < j < s.len() implies seq_lt(#[trigger] s[i].id@, #[trigger] s[j].id@) by {
                assert(s[i].id@ == old_s[i].id@ && s[j].id@ == old_s[j].id@);
            }
            assert(tasks_by_id(s) =~= tasks_by_id(old_s).insert(tid, task)) by {
                assert forall|id: Seq<char>| #[trigger] tasks_by_id(s).contains_key(id) <==> tasks_by_id(old_s).insert(tid, task).contains_key(id) by {
                    if tasks_by_id(s).contains_key(id) {
                        let i = choose|i: int| 0 <= i < s.len() && s[i].id@ == id;
                        assert(old_s[i].id@ == id);
                    }
                    if tasks_by_id(old_s).contains_key(id) {
                        let i = choose|i: int| 0 <= i < old_s.len() && old_s[i].id@ == id;
                        assert(s[i].id@ == id);
                    }
                    if id == tid {
                        assert(s[k as int].id@ == id);
                    }
                }
                assert forall|id: Seq<char>| #[trigger] tasks_by_id(s).contains_key(id) implies tasks_by_id(s)[id] == tasks_by_id(old_s).insert(tid, task)[id] by {
                    let i = id_index(s, id);
                    assert(0 <= i < s.len() && s[i].id@ == id);
                    assert(ids_sorted(s));
                    lemma_tasks_by_id_at(s, i);
                    if i != k {
                        assert(old_s[i] == s[i]);
                        assert(ids_sorted(old_s));
                        lemma_tasks_by_id_at(old_s, i);
                        assert(id != tid) by {
                            lemma_ids_distinct(old_s, i, k as int);
                        }
                    } else {
                        assert(s[i] == task);
                    }
                }
            }
        }
        tasks.tasks = v;
    } else {
        v.insert(k, task);
        proof {
            let s = v@;
            assert(s =~= old_s.insert(k as int, task));
            assert forall|i: int, j: int| 0 <= i < j < s.len() implies seq_lt(#[trigger] s[i].id@, #[trigger] s[j].id@) by {
                if j < k {
                    assert(s[i] == old_s[i] && s[j] == old_s[j]);
                } else if j == k {
                    assert(s[i] == old_s[i]);
                } else if i == k {
                    assert(s[j] == old_s[j - 1]);
                    if j - 1 > k {
                        assert(seq_lt(old_s[k as int].id@, old_s[j - 1].id@));
                        crate::text::lemma_seq_lt_transitive(tid, old_s[k as int].id@, old_s[j - 1].id@);
                    }
                } else if i < k {
                    assert(s[i] == old_s[i] && s[j] == old_s[j - 1]);
                    if j - 1 > k {
                        assert(seq_lt(old_s[k as int].id@, old_s[j - 1].id@));
                        crate::text::lemma_seq_lt_transitive(tid, old_s[k as int].id@, old_s[j - 1].id@);
                    }
                    crate::text::lemma_seq_lt_transitive(old_s[i].id@, tid, old_s[j - 1].id@);
                } else {
                    assert(s[i] == old_s[i - 1] && s[j] == old_s[j - 1]);
                }
            }
            assert forall|i: int| 0 <= i < old_s.len() implies old_s[i].id@ != tid by {
                if i < k {
                    assert(seq_lt(old_s[i].id@, tid));
                    crate::text::lemma_seq_lt_irreflexive(tid);
                } else {
                    assert(seq_lt(tid, old_s[k as int].id@));
                    if i > k {
                        assert(seq_lt(old_s[k as int].id@, old_s[i].id@));
                        crate::text::lemma_seq_lt_transitive(tid, old_s[k as int].id@, old_s[i].id@);
                    }
                    crate::text::lemma_seq_lt_irreflexive(tid);
                }
            }
            assert(tasks_by_id(s) =~= tasks_by_id(old_s).insert(tid, task)) by {
                assert forall|id: Seq<char>| #[trigger] tasks_by_id(s).contains_key(id) <==> tasks_by_id(old_s).insert(tid, task).contains_key(id) by {
                    if tasks_by_id(s).contains_key(id) {
                        let i = choose|i: int| 0 <= i < s.len() && s[i].id@ == id;
                        if i < k {
                            assert(old_s[i].id@ == id);
                        } else if i > k {
                            assert(old_s[i - 1].id@ == id);
                        }
                    }
                    if tasks_by_id(old_s).contains_key(id) {
                        let i = choose|i: int| 0 <= i < old_s.len() && old_s[i].id@ == id;
                        if i < k {
                            assert(s[i].id@ == id);
                        } else {
                            assert(s[i + 1].id@ == id);
                        }
                    }
                    if id == tid {
                        assert(s[k as int].id@ == id);
                    }
                }
                assert forall|id: Seq<char>| #[trigger] tasks_by_id(s).contains_key(id) implies tasks_by_id(s)[id] == tasks_by_id(old_s).insert(tid, task)[id] by {
                    let i = choose|i: int| 0 <= i < s.len() && s[i].id@ == id;
                    lemma_tasks_by_id_at(s, i);
                    if i < k {
                        lemma_tasks_by_id_at(old_s, i);
                    } else if i > k {
                        lemma_tasks_by_id_at(old_s, i - 1);
                    }
                }
            }
        }
        tasks.tasks = v;
    }
}

/// Opens a task: queued, progress 0, with an id made from the time in
/// nanoseconds; a task with that id is replaced.
pub fn create(
    tasks: &mut TaskRegistry,
    kind: &str,
    session_slug: Option<String>,
    message: &str,
    now_nanos: u128,
) -> (t: TaskStatus)
    ensures
        new_task(t, now_nanos as nat, kind@, session_slug, message@),
        final(tasks)@ == old(tasks)@.insert(t.id@, t),
{
    let mut id: Vec<char> = Vec::new();
    push_str(&mut id, "task-");
    push_decimal(&mut id, now_nanos);
    let task = TaskStatus {
        id: string_of(&id),
        kind: String::from_str(kind),
        state: String::from_str("queued"),
        message: String::from_str(message),
        progress: 0,
        partial: String::new(),
        session_slug,
    };
    upsert(tasks, task.clone());
    task
}

/// Reports on a task: its state and message, and its progress (capped at
/// 100) and partial text where given. An unknown id changes nothing.
pub fn update_progress(
    tasks: &mut TaskRegistry,
    id: &str,
    state: &str,
    message: &str,
    progress: Option<u8>,
    partial: Option<&str>,
)
    ensures
        !old(tasks)@.contains_key(id@) ==> final(tasks)@ == old(tasks)@,
        old(tasks)@.contains_key(id@) ==> final(tasks)@.contains_key(id@) && final(tasks)@ == old(tasks)@.insert(id@, final(tasks)@[id@]),
        old(tasks)@.contains_key(id@) ==> ({
            let before = old(tasks)@[id@];
            let after = final(tasks)@[id@];
            &&& after.id == before.id
            &&& after.kind == before.kind
            &&& after.session_slug == before.session_slug
            &&& after.state@ == state@
            &&& after.message@ == message@
            &&& after.progress == match progress {
                Some(p) => if p <= 100 { p } else { 100u8 },
                None => before.progress,
            }
            &&& after.partial@ == match partial {
                Some(p) => p@,
                None => before.partial@,
            }
        }),
{
    proof {
        use_type_invariant(&*tasks);
    }
    let idc = chars_of(id);
    let (k, found) = tasks.position(&idc);
    if !found {
        proof {
            lemma_absent(tasks.tasks@, id@, k as int);
        }
        return;
    }
    proof {
        lemma_tasks_by_id_at(tasks.tasks@, k as int);
    }
    let cur = tasks.tasks[k].clone();
    let new_progress = match progress {
        Some(p) => if p <= 100 { p } else { 100 },
        None => cur.progress,
    };
    let new_partial = match partial {
        Some(p) => String::from_str(p),
        None => cur.partial.clone(),
    };
    let t = TaskStatus {
        id: cur.id.clone(),
        kind: cur.kind.clone(),
        state: String::from_str(state),
        message: String::from_str(message),
        progress: new_progress,
        partial: new_partial,
        session_slug: cur.session_slug,
    };
    proof {
        lemma_tasks_by_id_at(tasks.tasks@, k as int);
    }
    upsert(tasks, t);
}

/// The partial text after a chunk is added: a blank line between the old
/// text and the chunk when both are non-empty.
pub open spec fn appended_partial(partial: Seq<char>, chunk: Seq<char>) -> Seq<char> {
    if partial.len() > 0 && chunk.len() > 0 {
        partial + "\n\n"@ + chunk
    } else {
        partial + chunk
    }
}

/// Adds a chunk of transcript to a task's partial text. An unknown id changes
/// nothing.
pub fn append_partial(tasks: &mut TaskRegistry, id: &str, chunk_text: &str)
    ensures
        !old(tasks)@.contains_key(id@) ==> final(tasks)@ == old(tasks)@,
        old(tasks)@.contains_key(id@) ==> final(tasks)@.contains_key(id@) && final(tasks)@ == old(tasks)@.insert(id@, final(tasks)@[id@]),
        old(tasks)@.contains_key(id@) ==> ({
            let before = old(tasks)@[id@];
            let after = final(tasks)@[id@];
            &&& after.id == before.id
            &&& after.kind == before.kind
            &&& after.state == before.state
            &&& after.message == before.message
            &&& after.progress == before.progress
            &&& after.session_slug == before.session_slug
            &&& after.partial@ == appended_partial(before.partial@, chunk_text@)
        }),
{
    proof {
        use_type_invariant(&*tasks);
    }
    let idc = chars_of(id);
    let (k, found) = tasks.position(&idc);
    if !found {
        proof {
            lemma_absent(tasks.tasks@, id@, k as int);
        }
        return;
    }
    proof {
        lemma_tasks_by_id_at(tasks.tasks@, k as int);
    }
    let cur = tasks.tasks[k].clone();
    let mut p = chars_of(cur.partial.as_str());
    let chunk = chars_of(chunk_text);
    if p.len() > 0 && chunk.len() > 0 {
        push_str(&mut p, "\n\n");
    }
    crate::text::push_all(&mut p, &chunk);
    let t = TaskStatus {
        id: cur.id.clone(),
        kind: cur.kind.clone(),
        state: cur.state.clone(),
        message: cur.message.clone(),
        progress: cur.progress,
        partial: string_of(&p),
        session_slug: cur.session_slug,
    };
    upsert(tasks, t);
}

/// The task with this id, if any.
pub fn get(tasks: &TaskRegistry, id: &str) -> (r: Option<TaskStatus>)
    ensures
        r == if tasks@.contains_key(id@) {
            Some(tasks@[id@])
        } else {
            None::<TaskStatus>
        },
{
    proof {
        use_type_invariant(tasks);
    }
    let idc = chars_of(id);
    let (k, found) = tasks.position(&idc);
    if found {
        proof {
            lemma_tasks_by_id_at(tasks.tasks@, k as int);
        }
        Some(tasks.tasks[k].clone())
    } else {
        proof {
            if tasks@.contains_key(id@) {
                let i = choose|i: int| 0 <= i < tasks.tasks@.len() && tasks.tasks@[i].id@ == id@;
                if i < k {
                    crate::text::lemma_seq_lt_irreflexive(id@);
                } else {
                    if i > k {
                        crate::text::lemma_seq_lt_transitive(id@, tasks.tasks@[k as int].id@, tasks.tasks@[i].id@);
                    }
                    crate::text::lemma_seq_lt_irreflexive(id@);
                }
            }
        }
        proof {
            lemma_absent(tasks.tasks@, id@, k as int);
        }
        None
    }
}

/// Every task, in id order.
pub fn list(tasks: &TaskRegistry) -> (r: Vec<TaskStatus>)
    ensures
        r@ == tasks.entries(),
        ids_sorted(r@),
        progress_bounded(r@),
        tasks_by_id(r@) == tasks@,
{
    proof {
        use_type_invariant(tasks);
    }
    let mut out: Vec<TaskStatus> = Vec::new();
    let mut i: usize = 0;
    while i < tasks.tasks.len()
        invariant
            i <= tasks.tasks@.len(),
            out@ == tasks.tasks@.take(i as int),
        decreases tasks.tasks.len() - i,
    {
        out.push(tasks.tasks[i].clone());
        proof {
            assert(out@ =~= tasks.tasks@.take(i + 1));
        }
        i += 1;
    }
    proof {
        assert(out@ =~= tasks.tasks@);
    }
    out
}


/// A task just created is found by its id, as created; the other tasks stay
/// as they were.
pub proof fn lemma_created_task_found(before: Map<Seq<char>, TaskStatus>, t: TaskStatus, other: Seq<char>)
    requires
        other != t.id@,
    ensures
        before.insert(t.id@, t).contains_key(t.id@),
        before.insert(t.id@, t)[t.id@] == t,
        before.insert(t.id@, t).contains_key(other) == before.contains_key(other),
        before.contains_key(other) ==> before.insert(t.id@, t)[other] == before[other],
{
}


/// `after` is the board `before` once task `id` is reported on as
/// `update_progress` does; an unknown id leaves it as it was.
pub open spec fn reported(
    before: Map<Seq<char>, TaskStatus>,
    after: Map<Seq<char>, TaskStatus>,
    id: Seq<char>,
    state: Seq<char>,
    message: Seq<char>,
    progress: Option<u8>,
    partial: Option<Seq<char>>,
) -> bool {
    &&& !before.contains_key(id) ==> after == before
    &&& before.contains_key(id) ==> {
        let b = before[id];
        let a = after[id];
        &&& after.contains_key(id)
        &&& after == before.insert(id, a)
        &&& a.id == b.id
        &&& a.kind == b.kind
        &&& a.session_slug == b.session_slug
        &&& a.state@ == state
        &&& a.message@ == message
        &&& a.progress == match progress {
            Some(p) => if p <= 100 { p } else { 100u8 },
            None => b.progress,
        }
        &&& a.partial@ == match partial {
            Some(p) => p,
            None => b.partial@,
        }
    }
}

/// `after` is the board `before` once a chunk is added to the partial text
/// of task `id`.
pub open spec fn chunk_added(before: Map<Seq<char>, TaskStatus>, after: Map<Seq<char>, TaskStatus>, id: Seq<char>, chunk: Seq<char>) -> bool {
    &&& !before.contains_key(id) ==> after == before
    &&& before.contains_key(id) ==> {
        let b = before[id];
        let a = after[id];
        &&& after.contains_key(id)
        &&& after == before.insert(id, a)
        &&& a.id == b.id
        &&& a.kind == b.kind
        &&& a.state == b.state
        &&& a.message == b.message
        &&& a.progress == b.progress
        &&& a.session_slug == b.session_slug
        &&& a.partial@ == appended_partial(b.partial@, chunk)
    }
}

fn report(tasks: &mut TaskRegistry, id: &str, state: &str, message: &str, progress: Option<u8>, partial: Option<&str>)
    ensures
        reported(
            old(tasks)@,
            final(tasks)@,
            id@,
            state@,
            message@,
            progress,
            match partial {
                Some(p) => Some(p@),
                None => None,
            },
        ),
{
    update_progress(tasks, id, state, message, progress, partial);
}

/// What happens to a transcription job, in the order the job reports it.
pub enum TranscriptionEvent {
    /// The audio is being uploaded.
    Uploading,
    /// The audio was submitted and is being transcribed.
    Submitted,
    /// Chunk `chunk` of `total` is transcribed; `progress` is where the bar
    /// stands.
    ChunkDone { chunk: usize, total: usize, progress: u8 },
    /// The text of the chunk just transcribed.
    ChunkText { text: String },
    /// The transcript is complete and being written; `preview` shows its
    /// start.
    Writing { preview: String },
    /// The job ended: with the message of its success or its error.
    Finished(Result<String, String>),
}

/// `正在转写音频 {chunk}/{total}`.
pub open spec fn chunk_message(chunk: nat, total: nat) -> Seq<char> {
    "正在转写音频 "@ + decimal(chunk) + "/"@ + decimal(total)
}

/// The search index is refreshed once the transcript was written, before
/// the task is reported done.
pub fn transcription_refreshes_index(event: &TranscriptionEvent) -> (r: bool)
    ensures
        r == (event matches TranscriptionEvent::Finished(Ok(_))),
{
    match event {
        TranscriptionEvent::Finished(Ok(_)) => true,
        _ => false,
    }
}

/// Reports a transcription event on the job's task.
pub fn on_transcription_event(tasks: &mut TaskRegistry, id: &str, event: &TranscriptionEvent)
    ensures
        match event {
            TranscriptionEvent::Uploading => reported(old(tasks)@, final(tasks)@, id@, "running"@, "正在上传音频"@, Some(15u8), Some("准备上传音频文件..."@)),
            TranscriptionEvent::Submitted => reported(old(tasks)@, final(tasks)@, id@, "running"@, "正在转写音频"@, Some(55u8), Some("音频已提交，等待转写结果..."@)),
            TranscriptionEvent::ChunkDone { chunk, total, progress } => reported(
                old(tasks)@,
                final(tasks)@,
                id@,
                "running"@,
                chunk_message(*chunk as nat, *total as nat),
                Some(*progress),
                None,
            ),
            TranscriptionEvent::ChunkText { text } => chunk_added(old(tasks)@, final(tasks)@, id@, text@),
            TranscriptionEvent::Writing { preview } => reported(old(tasks)@, final(tasks)@, id@, "running"@, "正在写入转写结果"@, Some(90u8), Some(preview@)),
            TranscriptionEvent::Finished(Ok(m)) => reported(old(tasks)@, final(tasks)@, id@, "done"@, m@, Some(100u8), None),
            TranscriptionEvent::Finished(Err(e)) => reported(old(tasks)@, final(tasks)@, id@, "failed"@, e@, Some(100u8), None),
        },
{
    match event {
        TranscriptionEvent::Uploading => {
            report(tasks, id, "running", "正在上传音频", Some(15), Some("准备上传音频文件..."));
        },
        TranscriptionEvent::Submitted => {
            report(tasks, id, "running", "正在转写音频", Some(55), Some("音频已提交，等待转写结果..."));
        },
        TranscriptionEvent::ChunkDone { chunk, total, progress } => {
            let mut msg: Vec<char> = Vec::new();
            push_str(&mut msg, "正在转写音频 ");
            push_decimal(&mut msg, *chunk as u128);
            push_str(&mut msg, "/");
            push_decimal(&mut msg, *total as u128);
            let m = string_of(&msg);
            report(tasks, id, "running", m.as_str(), Some(*progress), None);
        },
        TranscriptionEvent::ChunkText { text } => {
            append_partial(tasks, id, text.as_str());
        },
        TranscriptionEvent::Writing { preview } => {
            report(tasks, id, "running", "正在写入转写结果", Some(90), Some(preview.as_str()));
        },
        TranscriptionEvent::Finished(Ok(m)) => {
            report(tasks, id, "done", m.as_str(), Some(100), None);
        },
        TranscriptionEvent::Finished(Err(e)) => {
            report(tasks, id, "failed", e.as_str(), Some(100), None);
        },
    }
}

/// What happens to a screenshot analysis job.
pub enum AnalysisEvent {
    /// The job starts analysing the screenshot.
    Started,
    /// The analysis came back and is being added to the notes.
    Writing,
    /// The job ended: with success, or with the error of the analysis or of
    /// writing the notes.
    Finished(Result<(), String>),
}

/// The search index is refreshed once the analysis was added to the notes,
/// before the task is reported done.
pub fn analysis_refreshes_index(event: &AnalysisEvent) -> (r: bool)
    ensures
        r == (event matches AnalysisEvent::Finished(Ok(_))),
{
    match event {
        AnalysisEvent::Finished(Ok(_)) => true,
        _ => false,
    }
}

/// Reports an analysis event on the job's task.
pub fn on_analysis_event(tasks: &mut TaskRegistry, id: &str, event: &AnalysisEvent)
    ensures
        match event {
            AnalysisEvent::Started => reported(old(tasks)@, final(tasks)@, id@, "running"@, "正在分析截图内容"@, Some(30u8), None),
            AnalysisEvent::Writing => reported(old(tasks)@, final(tasks)@, id@, "running"@, "正在写入识别结果"@, Some(80u8), None),
            AnalysisEvent::Finished(Ok(_)) => reported(old(tasks)@, final(tasks)@, id@, "done"@, "截图识别完成"@, Some(100u8), None),
            AnalysisEvent::Finished(Err(e)) => reported(old(tasks)@, final(tasks)@, id@, "failed"@, e@, Some(100u8), None),
        },
{
    match event {
        AnalysisEvent::Started => {
            report(tasks, id, "running", "正在分析截图内容", Some(30), None);
        },
        AnalysisEvent::Writing => {
            report(tasks, id, "running", "正在写入识别结果", Some(80), None);
        },
        AnalysisEvent::Finished(Ok(())) => {
            report(tasks, id, "done", "截图识别完成", Some(100), None);
        },
        AnalysisEvent::Finished(Err(e)) => {
            report(tasks, id, "failed", e.as_str(), Some(100), None);
        },
    }
}

} // verus!

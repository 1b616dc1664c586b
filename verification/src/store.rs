//! The task store: the authoritative in-memory collection for one command
//! invocation, synchronized with one backing file path.
//!
//! The store holds the path as plain data and works on file *text*: the
//! caller reads the backing file and hands its content to [`Tasks::load`],
//! and writes what [`Tasks::save`] returns back as the file's full new
//! content, so that every mutation is a full read-modify-rewrite cycle.

use vstd::prelude::*;

use rand::RngExt;

use crate::TodoError;
use crate::codec;
use crate::render;
use crate::task::{Task, TaskView, views};

verus! {

/// An ASCII letter or digit: the alphabet task ids are drawn from.
pub open spec fn is_id_char(c: char) -> bool {
    ('a' <= c && c <= 'z') || ('A' <= c && c <= 'Z') || ('0' <= c && c <= '9')
}

/// A well-formed generated id: eight characters from the id alphabet.
pub open spec fn is_generated_id(s: Seq<char>) -> bool {
    s.len() == 8 && (forall|k: int| 0 <= k < s.len() ==> is_id_char(#[trigger] s[k]))
}

/// Relies on rand's thread-local generator sampled through the
/// `Alphanumeric` distribution, which yields only ASCII letters and digits.
/// The result depends on the generator's state, so nothing beyond length and
/// alphabet is stated: two calls may or may not agree.
#[verifier::external_body]
fn random_alnum_string(len: usize) -> (r: String)
    ensures
        r@.len() == len as nat,
        forall|k: int| 0 <= k < r@.len() ==> is_id_char(#[trigger] r@[k]),
{
    rand::rng().sample_iter(rand::distr::Alphanumeric).take(len).map(char::from).collect()
}

/// Whether some task in the collection carries the id.
pub open spec fn has_task(ts: Seq<TaskView>, id: Seq<char>) -> bool {
    exists|k: int| 0 <= k < ts.len() && ts[k].id == id
}

/// The collection without every task that carries the id.
pub open spec fn spec_remove(ts: Seq<TaskView>, id: Seq<char>) -> Seq<TaskView> {
    ts.filter(|t: TaskView| t.id != id)
}

/// One task after an edit: each supplied field replaces the old value; the id
/// and every unsupplied field stay as they were.
pub open spec fn spec_edit(
    t: TaskView,
    title: Option<Seq<char>>,
    description: Option<Seq<char>>,
    is_done: Option<bool>,
) -> TaskView {
    TaskView {
        id: t.id,
        title: match title {
            Some(x) => x,
            None => t.title,
        },
        description: match description {
            Some(x) => x,
            None => t.description,
        },
        is_done: match is_done {
            Some(x) => x,
            None => t.is_done,
        },
    }
}

/// The value of an optional field override.
pub open spec fn opt_view(o: Option<String>) -> Option<Seq<char>> {
    match o {
        Some(s) => Some(s@),
        None => None,
    }
}

/// No two tasks in the collection share an id.
pub open spec fn distinct_ids(ts: Seq<TaskView>) -> bool {
    forall|p: int, q: int| 0 <= p < q < ts.len() ==> ts[p].id != ts[q].id
}

/// Removal keeps a task exactly when its id differs: one step of the filter.
proof fn lemma_spec_remove_push(ts: Seq<TaskView>, t: TaskView, id: Seq<char>)
    ensures
        spec_remove(ts.push(t), id) == if t.id != id {
            spec_remove(ts, id).push(t)
        } else {
            spec_remove(ts, id)
        },
{
    reveal(Seq::filter);
    assert(ts.push(t).drop_last() =~= ts);
    assert(ts.push(t).last() == t);
}

/// Removing an id that no task carries changes nothing.
proof fn lemma_spec_remove_absent(ts: Seq<TaskView>, id: Seq<char>)
    requires
        !has_task(ts, id),
    ensures
        spec_remove(ts, id) == ts,
    decreases ts.len(),
{
    reveal(Seq::filter);
    if ts.len() == 0 {
    } else {
        let s1 = ts.drop_last();
        assert(!has_task(s1, id)) by {
            if has_task(s1, id) {
                let k = choose|k: int| 0 <= k < s1.len() && (#[trigger] s1[k]).id == id;
                assert(ts[k].id == id);
            }
        }
        lemma_spec_remove_absent(s1, id);
        assert(ts[ts.len() - 1].id != id);
        assert(s1.push(ts.last()) =~= ts);
        lemma_spec_remove_push(s1, ts.last(), id);
        assert(spec_remove(ts, id) == spec_remove(s1, id).push(ts.last()));
        assert(s1.push(ts.last()) =~= ts);
    }
}

/// No task of the filtered collection carries the removed id.
proof fn lemma_spec_remove_removes(ts: Seq<TaskView>, id: Seq<char>)
    ensures
        !has_task(spec_remove(ts, id), id),
    decreases ts.len(),
{
    reveal(Seq::filter);
    if ts.len() == 0 {
        assert(spec_remove(ts, id) == ts);
    } else {
        let s1 = ts.drop_last();
        let last = ts.last();
        lemma_spec_remove_removes(s1, id);
        assert(s1.push(last) =~= ts);
        lemma_spec_remove_push(s1, last, id);
        if last.id != id {
            let out = spec_remove(s1, id).push(last);
            assert(!has_task(out, id)) by {
                if has_task(out, id) {
                    let k = choose|k: int| 0 <= k < out.len() && (#[trigger] out[k]).id == id;
                    if k < out.len() - 1 {
                        assert(spec_remove(s1, id)[k].id == id);
                        assert(has_task(spec_remove(s1, id), id));
                    }
                }
            }
        }
    }
}

/// Removal shrinks by exactly one: with pairwise-distinct ids, removing an
/// id that some task carries yields a collection one shorter, and the id is
/// absent afterwards, so a second removal of the same id must fail.
pub proof fn lemma_remove_shrinks_by_one(ts: Seq<TaskView>, id: Seq<char>)
    requires
        distinct_ids(ts),
        has_task(ts, id),
    ensures
        spec_remove(ts, id).len() == ts.len() - 1,
        !has_task(spec_remove(ts, id), id),
    decreases ts.len(),
{
    lemma_spec_remove_removes(ts, id);
    let s1 = ts.drop_last();
    let last = ts.last();
    assert(s1.push(last) =~= ts);
    lemma_spec_remove_push(s1, last, id);
    if last.id == id {
        assert(!has_task(s1, id)) by {
            if has_task(s1, id) {
                let k = choose|k: int| 0 <= k < s1.len() && (#[trigger] s1[k]).id == id;
                assert(ts[k].id == id && ts[ts.len() - 1].id == id);
            }
        }
        lemma_spec_remove_absent(s1, id);
    } else {
        assert(has_task(s1, id)) by {
            let k = choose|k: int| 0 <= k < ts.len() && (#[trigger] ts[k]).id == id;
            assert(k != ts.len() - 1);
            assert(s1[k].id == id);
        }
        assert(distinct_ids(s1)) by {
            assert(forall|p: int, q: int|
                0 <= p < q < s1.len() ==> s1[p] == ts[p] && s1[q] == ts[q]);
        }
        lemma_remove_shrinks_by_one(s1, id);
    }
}

/// Partial edit: an edit that supplies only a new title keeps the id, the
/// description and the done flag exactly as they were.
pub proof fn lemma_partial_edit(t: TaskView, new_title: Seq<char>)
    ensures
        spec_edit(t, Some(new_title), None, None).id == t.id,
        spec_edit(t, Some(new_title), None, None).title == new_title,
        spec_edit(t, Some(new_title), None, None).description == t.description,
        spec_edit(t, Some(new_title), None, None).is_done == t.is_done,
{
}

/// An edit that supplies no fields leaves the collection exactly as it was.
pub proof fn lemma_edit_nothing(ts: Seq<TaskView>, k: int)
    requires
        0 <= k < ts.len(),
    ensures
        ts.update(k, spec_edit(ts[k], None, None, None)) == ts,
{
    assert(spec_edit(ts[k], None, None, None) == ts[k]);
    assert(ts.update(k, ts[k]) =~= ts);
}

/// The collection of tasks for one command invocation, backed by one file
/// path supplied at construction.
pub struct Tasks {
    tasks: Vec<Task>,
    file_path: String,
}

impl View for Tasks {
    type V = Seq<TaskView>;

    closed spec fn view(&self) -> Seq<TaskView> {
        views(self.tasks@)
    }
}

impl Tasks {
    /// The path of the backing file, as given at construction.
    pub closed spec fn path(&self) -> Seq<char> {
        self.file_path@
    }

    /// Creates an empty store backed by the given file path.
    pub fn new(file_path: String) -> (t: Tasks)
        ensures
            t@ == Seq::<TaskView>::empty(),
            t.path() == file_path@,
    {
        let tasks: Vec<Task> = Vec::new();
        proof {
            assert(views(tasks@) =~= Seq::<TaskView>::empty());
        }
        Tasks { tasks, file_path }
    }

    /// The current collection, in order.
    pub fn tasks(&self) -> (r: &Vec<Task>)
        ensures
            views(r@) == self@,
    {
        &self.tasks
    }

    /// The backing file path.
    pub fn file_path(&self) -> (r: &String)
        ensures
            r@ == self.path(),
    {
        &self.file_path
    }

    /// Generates a new task id: eight characters drawn from letters and
    /// digits. Uniqueness against the existing ids is not checked; the
    /// keyspace makes a collision statistically rare, and a caller that must
    /// rule one out has to compare against the collection itself.
    fn generate_task_id(&self) -> (r: String)
        ensures
            is_generated_id(r@),
    {
        random_alnum_string(8)
    }

    /// Replaces the collection with what the backing file's text holds. No
    /// text (no file yet) means an empty collection, not an error; malformed
    /// text is a decoding error and leaves the store as it was.
    pub fn load(&mut self, content: Option<&str>) -> (r: Result<(), TodoError>)
        ensures
            final(self).path() == old(self).path(),
            match content {
                None => r is Ok && final(self)@ == Seq::<TaskView>::empty(),
                Some(text) => match codec::spec_parse(text@) {
                    Some(ts) => r is Ok && final(self)@ == ts,
                    None => r == Err::<(), TodoError>(TodoError::DecodeError) && final(self)@
                        == old(self)@,
                },
            },
    {
        match content {
            None => {
                let cleared: Vec<Task> = Vec::new();
                proof {
                    assert(views(cleared@) =~= Seq::<TaskView>::empty());
                }
                self.tasks = cleared;
                Ok(())
            },
            Some(text) => match codec::decode(text) {
                Ok(ts) => {
                    self.tasks = ts;
                    Ok(())
                },
                Err(e) => Err(e),
            },
        }
    }

    /// The file text for the current collection, to be written back by the
    /// caller as the backing file's full new content.
    pub fn save(&self) -> (r: String)
        ensures
            r@ == codec::spec_encode(self@),
    {
        codec::encode(&self.tasks)
    }

    /// Appends a fresh task carrying a newly generated id, the given title
    /// and description, and a clear done flag; every task already present
    /// stays exactly as it was.
    pub fn add_task(&mut self, title: String, description: String) -> (r: String)
        ensures
            final(self).path() == old(self).path(),
            final(self)@.len() == old(self)@.len() + 1,
            final(self)@.take(old(self)@.len() as int) == old(self)@,
            final(self)@.last().title == title@,
            final(self)@.last().description == description@,
            final(self)@.last().is_done == false,
            is_generated_id(final(self)@.last().id),
            r@ == "The task was successfully added."@,
    {
        let id = self.generate_task_id();
        let t = Task::new(id, title, description, false);
        let ghost tv = t@;
        self.tasks.push(t);
        proof {
            assert(views(self.tasks@) =~= views(old(self).tasks@).push(tv));
            assert(views(self.tasks@).take(old(self)@.len() as int) =~= views(old(self).tasks@));
        }
        "The task was successfully added.".to_owned()
    }

    /// Overwrites each supplied field of the first task carrying the id,
    /// leaving the id and every unsupplied field untouched; fails, changing
    /// nothing, when no task carries the id.
    pub fn edit_task(
        &mut self,
        id: &String,
        title: Option<String>,
        description: Option<String>,
        is_done: Option<bool>,
    ) -> (r: Result<String, TodoError>)
        ensures
            final(self).path() == old(self).path(),
            r is Ok <==> has_task(old(self)@, id@),
            match r {
                Ok(msg) => msg@ == "The task was successfully edited."@ && exists|k: int|
                    {
                        &&& 0 <= k < old(self)@.len()
                        &&& (#[trigger] old(self)@[k]).id == id@
                        &&& (forall|j: int| 0 <= j < k ==> old(self)@[j].id != id@)
                        &&& final(self)@ == old(self)@.update(
                            k,
                            spec_edit(
                                old(self)@[k],
                                opt_view(title),
                                opt_view(description),
                                is_done,
                            ),
                        )
                    },
                Err(e) => e == TodoError::NotFoundError && final(self)@ == old(self)@,
            },
    {
        let ghost orig = self@;
        let ghost titlev = opt_view(title);
        let ghost descv = opt_view(description);
        let ghost donev = is_done;
        let n = self.tasks.len();
        let mut i: usize = 0;
        let mut idx: usize = n;
        while i < n
            invariant
                n == self.tasks.len(),
                views(self.tasks@) == orig,
                i <= n,
                idx <= n,
                idx == n ==> forall|j: int| 0 <= j < i ==> orig[j].id != id@,
                idx < n ==> orig[idx as int].id == id@ && (forall|j: int|
                    0 <= j < idx ==> orig[j].id != id@),
            decreases n - i,
        {
            if idx == n && self.tasks[i].id == *id {
                proof {
                    assert(orig[i as int].id == self.tasks@[i as int].id@);
                }
                idx = i;
            }
            i += 1;
        }
        if idx < n {
            let ghost tasks0 = self.tasks@;
            let old_t = self.tasks.remove(idx);
            let Task { id: kept_id, title: old_title, description: old_description, is_done: old_done } =
                old_t;
            let new_title = match title {
                Some(x) => x,
                None => old_title,
            };
            let new_description = match description {
                Some(x) => x,
                None => old_description,
            };
            let new_done = match is_done {
                Some(x) => x,
                None => old_done,
            };
            let new_t = Task::new(kept_id, new_title, new_description, new_done);
            let ghost ntask = new_t;
            self.tasks.insert(idx, new_t);
            proof {
                assert(self.tasks@ =~= tasks0.update(idx as int, ntask));
                assert(views(self.tasks@) =~= orig.update(idx as int, ntask@));
                assert(ntask@ == spec_edit(orig[idx as int], titlev, descv, donev));
                assert(has_task(orig, id@));
            }
            Ok("The task was successfully edited.".to_owned())
        } else {
            proof {
                assert(!has_task(orig, id@)) by {
                    if has_task(orig, id@) {
                        let k = choose|k: int| 0 <= k < orig.len() && (#[trigger] orig[k]).id == id@;
                        assert(orig[k].id != id@);
                    }
                }
            }
            Err(TodoError::NotFoundError)
        }
    }

    /// Filters out every task carrying the id and reports how that went:
    /// fails, changing nothing, when no task carries it.
    pub fn remove_task(&mut self, id: &String) -> (r: Result<String, TodoError>)
        ensures
            final(self).path() == old(self).path(),
            r is Ok <==> has_task(old(self)@, id@),
            match r {
                Ok(msg) => msg@ == "The task was successfully removed."@ && final(self)@
                    == spec_remove(old(self)@, id@),
                Err(e) => e == TodoError::NotFoundError && final(self)@ == old(self)@,
            },
    {
        let ghost orig = self@;
        let ghost fp0 = self.file_path@;
        let mut kept: Vec<Task> = Vec::new();
        let mut removed = false;
        let ghost mut i: int = 0;
        proof {
            reveal(Seq::filter);
            assert(orig.take(0) =~= Seq::<TaskView>::empty());
            assert(views(kept@) =~= spec_remove(orig.take(0), id@));
        }
        while self.tasks.len() > 0
            invariant
                0 <= i <= orig.len(),
                self.file_path@ == fp0,
                views(self.tasks@) == orig.skip(i),
                views(kept@) == spec_remove(orig.take(i), id@),
                removed == has_task(orig.take(i), id@),
            decreases self.tasks.len(),
        {
            proof {
                assert(orig.skip(i).len() > 0);
            }
            let ghost tasks_before = self.tasks@;
            let t = self.tasks.remove(0);
            let ghost tv = t@;
            proof {
                assert(tasks_before[0]@ == views(tasks_before)[0]);
                assert(tv == orig.skip(i)[0]);
                assert(orig.skip(i)[0] == orig[i]);
                assert(self.tasks@ =~= tasks_before.drop_first());
                assert(views(self.tasks@) =~= orig.skip(i + 1)) by {
                    assert forall|j: int| 0 <= j < self.tasks@.len() implies views(self.tasks@)[j]
                        == orig.skip(i + 1)[j] by {
                        assert(views(self.tasks@)[j] == self.tasks@[j]@);
                        assert(self.tasks@[j] == tasks_before[j + 1]);
                        assert(tasks_before[j + 1]@ == views(tasks_before)[j + 1]);
                        assert(views(tasks_before)[j + 1] == orig.skip(i)[j + 1]);
                        assert(orig.skip(i)[j + 1] == orig[i + j + 1]);
                        assert(orig.skip(i + 1)[j] == orig[i + 1 + j]);
                    }
                    assert(views(self.tasks@).len() == orig.skip(i + 1).len());
                }
                assert(orig.take(i + 1) =~= orig.take(i).push(orig[i]));
                lemma_spec_remove_push(orig.take(i), orig[i], id@);
            }
            if t.id == *id {
                removed = true;
                proof {
                    assert(orig.take(i + 1)[i].id == id@);
                    assert(has_task(orig.take(i + 1), id@));
                }
            } else {
                let ghost kept0 = views(kept@);
                kept.push(t);
                proof {
                    assert(views(kept@) =~= kept0.push(tv));
                    assert(!has_task(orig.take(i + 1), id@) <== !has_task(orig.take(i), id@)) by {
                        if has_task(orig.take(i + 1), id@) && !has_task(orig.take(i), id@) {
                            let k = choose|k: int|
                                0 <= k < orig.take(i + 1).len() && (#[trigger] orig.take(i + 1)[k]).id == id@;
                            if k < i {
                                assert(orig.take(i)[k].id == id@);
                            } else {
                                assert(orig[i].id == id@);
                            }
                        }
                    }
                }
            }
            proof {
                if removed && !has_task(orig.take(i), id@) && orig[i].id != id@ {
                    assert(false);
                }
                if has_task(orig.take(i), id@) {
                    let k = choose|k: int| 0 <= k < orig.take(i).len() && (#[trigger] orig.take(i)[k]).id == id@;
                    assert(orig.take(i + 1)[k].id == id@);
                    assert(has_task(orig.take(i + 1), id@));
                }
                i = i + 1;
            }
        }
        proof {
            assert(views(self.tasks@).len() == 0);
            assert(i == orig.len());
            assert(orig.take(i) =~= orig);
        }
        if removed {
            self.tasks = kept;
            Ok("The task was successfully removed.".to_owned())
        } else {
            proof {
                lemma_spec_remove_absent(orig, id@);
            }
            self.tasks = kept;
            Err(TodoError::NotFoundError)
        }
    }

    /// Renders the current collection as the table the list command shows;
    /// reads only, never touches the collection or the backing file.
    pub fn list_task(&self) -> (r: String)
        ensures
            r@ == render::table_render(render::header_row(), render::display_rows(self@)),
    {
        render::render_tasks(&self.tasks)
    }
}

} // verus!

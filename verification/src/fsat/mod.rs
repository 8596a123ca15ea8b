//! Path resolution relative to the top-level directory, and deleting below it.
//!
//! Paths are walked one component at a time, and `.`/`..` are rejected, so
//! neither a planted nor a concurrently swapped symlink can redirect an
//! operation (which runs as root) outside the filesystem tree.

pub mod laws;

use vstd::prelude::*;

use crate::btrfs::ops::FIRST_FREE_OBJECTID;
use crate::text::{
    components, components_of, is_component, law_names_of_paths_add_up, lemma_components_proper,
    same_text, texts,
};

verus! {

// ---- what an entry is ----

/// What the kernel says about an entry.
#[derive(Clone, Copy, PartialEq, Eq, Debug, Structural)]
pub struct Stat {
    pub mode: u32,
    pub ino: u64,
    pub dev: u64,
}

/// The bits of a mode that say what an entry is, and two of their values.
#[derive(Clone, Copy, Debug)]
struct FileTypes {
    mask: u32,
    dir: u32,
    file: u32,
}

/// `S_IFMT`, `S_IFDIR` and `S_IFREG` of [`libc`], which are the same on every
/// Linux.
#[verifier::external_body]
fn file_types() -> (r: FileTypes)
    ensures
        r.mask == 0o170000,
        r.dir == 0o040000,
        r.file == 0o100000,
{
    FileTypes { mask: libc::S_IFMT, dir: libc::S_IFDIR, file: libc::S_IFREG }
}

/// Whether an entry is a directory.
pub open spec fn dir_mode(st: Stat) -> bool {
    st.mode & 0o170000 == 0o040000
}

/// Whether an entry is the root of a subvolume.
pub open spec fn subvol_mode(st: Stat) -> bool {
    dir_mode(st) && st.ino == 256
}

pub fn is_dir(st: &Stat) -> (r: bool)
    ensures
        r == dir_mode(*st),
{
    let k = file_types();
    st.mode & k.mask == k.dir
}

/// Whether an entry is a file.
pub open spec fn file_mode(st: Stat) -> bool {
    st.mode & 0o170000 == 0o100000
}

pub fn is_file(st: &Stat) -> (r: bool)
    ensures
        r == (st.mode & 0o170000 == 0o100000),
        r == file_mode(*st),
{
    let k = file_types();
    st.mode & k.mask == k.file
}

pub fn is_subvol_root(st: &Stat) -> (r: bool)
    ensures
        r == subvol_mode(*st),
{
    is_dir(st) && st.ino == FIRST_FREE_OBJECTID
}

// ---- paths ----

/// Why a path cannot be walked.
#[derive(Clone, Copy, PartialEq, Eq, Debug, Structural)]
pub enum PathError {
    /// It contains `.` or `..`.
    Dots,
    /// It has no last component.
    Empty,
}

/// Whether a path contains `.` or `..`.
pub open spec fn has_dots(names: Seq<Seq<char>>) -> bool {
    exists|i: int| 0 <= i < names.len() && (#[trigger] names[i] == "."@ || names[i] == ".."@)
}

/// The components of a path below the top-level directory.
pub fn path_components(rel: &str) -> (r: Result<Vec<String>, PathError>)
    ensures
        match r {
            Ok(v) => !has_dots(components(rel@)) && texts(v@) == components(rel@),
            Err(e) => has_dots(components(rel@)) && e == PathError::Dots,
        },
{
    let v = components_of(rel);
    let ghost names = components(rel@);
    let mut i: usize = 0;
    assert(texts(v@).len() == v@.len());
    while i < v.len()
        invariant
            names == texts(v@),
            names == components(rel@),
            i <= v@.len(),
            forall|k: int| 0 <= k < i ==> #[trigger] names[k] != "."@ && names[k] != ".."@,
        decreases v@.len() - i,
    {
        assert(names[i as int] == v@[i as int]@);
        if same_text(v[i].as_str(), ".") || same_text(v[i].as_str(), "..") {
            return Err(PathError::Dots);
        }
        i += 1;
    }
    Ok(v)
}

/// The directories to go through and the name in the last of them.
pub fn split_parent(rel: &str) -> (r: Result<(Vec<String>, String), PathError>)
    ensures
        ({
            let names = components(rel@);
            match r {
                Ok((dirs, name)) => !has_dots(names) && names.len() > 0 && texts(dirs@)
                    == names.drop_last() && name@ == names.last(),
                Err(PathError::Dots) => has_dots(names),
                Err(PathError::Empty) => names.len() == 0,
            }
        }),
{
    match path_components(rel) {
        Ok(v) => {
            let mut dirs = v;
            let ghost names = components(rel@);
            let ghost was = dirs@;
            match dirs.pop() {
                Some(name) => {
                    assert(names.last() == name@);
                    assert(texts(dirs@) =~= names.drop_last());
                    Ok((dirs, name))
                },
                None => Err(PathError::Empty),
            }
        },
        Err(e) => Err(e),
    }
}

/// No component that is walked leads up or stays in place.
pub proof fn law_paths_lead_down(path: Seq<char>, i: int)
    requires
        !has_dots(components(path)),
        0 <= i < components(path).len(),
    ensures
        components(path)[i].len() > 0,
        !components(path)[i].contains('/'),
        components(path)[i] != "."@,
        components(path)[i] != ".."@,
{
    lemma_components_proper(path);
    assert(is_component(components(path)[i]));
}

// ---- deleting ----

/// Something left to do, in the directory that is open.
#[derive(Debug)]
pub enum Task {
    /// Delete the entry: a file, a directory tree or a subvolume.
    Delete(Vec<u8>),
    /// Go into the directory, if it is still the one that was seen, and delete
    /// what is there and the directory.
    Check(Vec<u8>, Stat),
    /// Destroy the entry if it is a subvolume, and those below if not.
    Nested(Vec<u8>),
    /// Go into the directory and destroy the subvolumes below.
    Into(Vec<u8>),
    /// Delete every entry.
    Empty,
    /// Destroy every subvolume at or below an entry.
    Seek,
    /// Go back up.
    Leave,
    /// Remove a file.
    Unlink(Vec<u8>),
    /// Remove an empty directory.
    Rmdir(Vec<u8>),
    /// Destroy a subvolume.
    Destroy(Vec<u8>),
}

/// Something left to do.
#[verifier::ext_equal]
pub enum TaskView {
    Delete(Seq<u8>),
    Check(Seq<u8>, Stat),
    Nested(Seq<u8>),
    Into(Seq<u8>),
    Empty,
    Seek,
    Leave,
    Unlink(Seq<u8>),
    Rmdir(Seq<u8>),
    Destroy(Seq<u8>),
}

impl View for Task {
    type V = TaskView;

    open spec fn view(&self) -> TaskView {
        match *self {
            Task::Delete(n) => TaskView::Delete(n@),
            Task::Check(n, st) => TaskView::Check(n@, st),
            Task::Nested(n) => TaskView::Nested(n@),
            Task::Into(n) => TaskView::Into(n@),
            Task::Empty => TaskView::Empty,
            Task::Seek => TaskView::Seek,
            Task::Leave => TaskView::Leave,
            Task::Unlink(n) => TaskView::Unlink(n@),
            Task::Rmdir(n) => TaskView::Rmdir(n@),
            Task::Destroy(n) => TaskView::Destroy(n@),
        }
    }
}

/// What is asked of the kernel, in the directory that is open.
#[derive(Debug)]
pub enum Request {
    /// What the entry is, without following a link.
    Stat(Vec<u8>),
    /// Open the directory, without following a link, and say what it is.
    Enter(Vec<u8>),
    /// Open the directory, without following a link.
    Open(Vec<u8>),
    /// The names of all entries.
    List,
    /// Go back to the directory that was open before.
    Leave,
    Unlink(Vec<u8>),
    Rmdir(Vec<u8>),
    Destroy(Vec<u8>),
}

/// What is asked of the kernel.
#[verifier::ext_equal]
pub enum RequestView {
    Stat(Seq<u8>),
    Enter(Seq<u8>),
    Open(Seq<u8>),
    List,
    Leave,
    Unlink(Seq<u8>),
    Rmdir(Seq<u8>),
    Destroy(Seq<u8>),
}

impl View for Request {
    type V = RequestView;

    open spec fn view(&self) -> RequestView {
        match *self {
            Request::Stat(n) => RequestView::Stat(n@),
            Request::Enter(n) => RequestView::Enter(n@),
            Request::Open(n) => RequestView::Open(n@),
            Request::List => RequestView::List,
            Request::Leave => RequestView::Leave,
            Request::Unlink(n) => RequestView::Unlink(n@),
            Request::Rmdir(n) => RequestView::Rmdir(n@),
            Request::Destroy(n) => RequestView::Destroy(n@),
        }
    }
}

/// What the kernel answers.
#[derive(Debug)]
pub enum Reply {
    Stat(Stat),
    Names(Vec<Vec<u8>>),
    Done,
}

/// What the kernel answers.
#[verifier::ext_equal]
pub enum ReplyView {
    Stat(Stat),
    Names(Seq<Seq<u8>>),
    Done,
}

/// The names as bytes.
pub open spec fn name_views(v: Seq<Vec<u8>>) -> Seq<Seq<u8>> {
    v.map_values(|n: Vec<u8>| n@)
}

impl View for Reply {
    type V = ReplyView;

    open spec fn view(&self) -> ReplyView {
        match *self {
            Reply::Stat(st) => ReplyView::Stat(st),
            Reply::Names(v) => ReplyView::Names(name_views(v@)),
            Reply::Done => ReplyView::Done,
        }
    }
}

/// What a task asks of the kernel.
pub open spec fn request_of(t: TaskView) -> RequestView {
    match t {
        TaskView::Delete(n) => RequestView::Stat(n),
        TaskView::Check(n, _) => RequestView::Enter(n),
        TaskView::Nested(n) => RequestView::Stat(n),
        TaskView::Into(n) => RequestView::Open(n),
        TaskView::Empty => RequestView::List,
        TaskView::Seek => RequestView::List,
        TaskView::Leave => RequestView::Leave,
        TaskView::Unlink(n) => RequestView::Unlink(n),
        TaskView::Rmdir(n) => RequestView::Rmdir(n),
        TaskView::Destroy(n) => RequestView::Destroy(n),
    }
}

/// Whether a reply is one to the request.
pub open spec fn replies_to(r: ReplyView, q: RequestView) -> bool {
    match q {
        RequestView::Stat(_) => r is Stat,
        RequestView::Enter(_) => r is Stat,
        RequestView::List => r is Names,
        _ => r is Done,
    }
}

/// Whether two reports are about the same directory.
pub open spec fn same_dir(x: Stat, y: Stat) -> bool {
    x.dev == y.dev && x.ino == y.ino
}

/// Deletions of all of `names`, the first one on top.
pub open spec fn deletes(names: Seq<Seq<u8>>) -> Seq<TaskView> {
    Seq::new(names.len(), |i: int| TaskView::Delete(names[names.len() - 1 - i]))
}

/// Searches of all of `names`, the first one on top.
pub open spec fn nesteds(names: Seq<Seq<u8>>) -> Seq<TaskView> {
    Seq::new(names.len(), |i: int| TaskView::Nested(names[names.len() - 1 - i]))
}

/// What is left to do after the reply to the task on top: nothing is, if a
/// directory was exchanged for another meanwhile.
pub open spec fn after_reply(tasks: Seq<TaskView>, r: ReplyView) -> Option<Seq<TaskView>> {
    let rest = tasks.drop_last();
    match tasks.last() {
        TaskView::Delete(n) => if dir_mode(r->Stat_0) {
            Some(rest.push(TaskView::Check(n, r->Stat_0)))
        } else {
            Some(rest.push(TaskView::Unlink(n)))
        },
        TaskView::Check(n, st) => if !same_dir(r->Stat_0, st) {
            None
        } else if subvol_mode(st) {
            Some(rest + seq![TaskView::Destroy(n), TaskView::Leave, TaskView::Seek])
        } else {
            Some(rest + seq![TaskView::Rmdir(n), TaskView::Leave, TaskView::Empty])
        },
        TaskView::Nested(n) => if subvol_mode(r->Stat_0) {
            Some(rest.push(TaskView::Delete(n)))
        } else if dir_mode(r->Stat_0) {
            Some(rest.push(TaskView::Into(n)))
        } else {
            Some(rest)
        },
        TaskView::Into(_) => Some(rest + seq![TaskView::Leave, TaskView::Seek]),
        TaskView::Empty => Some(rest + deletes(r->Names_0)),
        TaskView::Seek => Some(rest + nesteds(r->Names_0)),
        _ => Some(rest),
    }
}

/// A deletion under way.
#[derive(Debug)]
pub struct Deletion {
    pub tasks: Vec<Task>,
}

impl View for Deletion {
    type V = Seq<TaskView>;

    open spec fn view(&self) -> Seq<TaskView> {
        self.tasks@.map_values(|t: Task| t@)
    }
}

fn bytes_of(v: &Vec<u8>) -> (r: Vec<u8>)
    ensures
        r@ == v@,
{
    vstd::slice::slice_to_vec(v.as_slice())
}

impl Deletion {
    /// Starts to delete `name` in the directory that is open.
    pub fn new(name: Vec<u8>) -> (r: Self)
        ensures
            r@ == seq![TaskView::Delete(name@)],
    {
        let mut tasks: Vec<Task> = Vec::new();
        tasks.push(Task::Delete(name));
        let r = Deletion { tasks };
        assert(r@ =~= seq![TaskView::Delete(name@)]);
        r
    }

    /// What is asked of the kernel next; nothing when all is done.
    pub fn request(&self) -> (r: Option<Request>)
        ensures
            match r {
                Some(q) => self@.len() > 0 && q@ == request_of(self@.last()),
                None => self@.len() == 0,
            },
    {
        if self.tasks.len() == 0 {
            return None;
        }
        let t = &self.tasks[self.tasks.len() - 1];
        assert(self@.last() == t@);
        Some(
            match t {
                Task::Delete(n) => Request::Stat(bytes_of(n)),
                Task::Check(n, _) => Request::Enter(bytes_of(n)),
                Task::Nested(n) => Request::Stat(bytes_of(n)),
                Task::Into(n) => Request::Open(bytes_of(n)),
                Task::Empty => Request::List,
                Task::Seek => Request::List,
                Task::Leave => Request::Leave,
                Task::Unlink(n) => Request::Unlink(bytes_of(n)),
                Task::Rmdir(n) => Request::Rmdir(bytes_of(n)),
                Task::Destroy(n) => Request::Destroy(bytes_of(n)),
            },
        )
    }

    fn push(&mut self, t: Task)
        ensures
            final(self)@ == old(self)@.push(t@),
    {
        self.tasks.push(t);
        assert(self@ =~= old(self)@.push(t@));
    }

    /// Takes the kernel's answer. Says whether to go on: not if a directory was
    /// exchanged for another meanwhile.
    pub fn reply(&mut self, r: Reply) -> (ok: bool)
        requires
            old(self)@.len() > 0,
            replies_to(r@, request_of(old(self)@.last())),
        ensures
            ok == (after_reply(old(self)@, r@) is Some),
            ok ==> Some(final(self)@) == after_reply(old(self)@, r@),
    {
        let ghost was = self@;
        let n = self.tasks.len();
        assert(was.last() == self.tasks@.last()@);
        let top = match self.tasks.pop() {
            Some(t) => t,
            None => {
                return false;
            },
        };
        assert(self@ =~= was.drop_last());
        let ghost rest = self@;
        match (top, r) {
            (Task::Delete(n), Reply::Stat(st)) => {
                if is_dir(&st) {
                    self.push(Task::Check(n, st));
                } else {
                    self.push(Task::Unlink(n));
                }
            },
            (Task::Check(n, seen), Reply::Stat(st)) => {
                if st.dev != seen.dev || st.ino != seen.ino {
                    return false;
                }
                if is_subvol_root(&seen) {
                    self.push(Task::Destroy(n));
                    self.push(Task::Leave);
                    self.push(Task::Seek);
                    assert(self@ =~= rest + seq![
                        TaskView::Destroy(n@),
                        TaskView::Leave,
                        TaskView::Seek,
                    ]);
                } else {
                    self.push(Task::Rmdir(n));
                    self.push(Task::Leave);
                    self.push(Task::Empty);
                    assert(self@ =~= rest + seq![
                        TaskView::Rmdir(n@),
                        TaskView::Leave,
                        TaskView::Empty,
                    ]);
                }
            },
            (Task::Nested(n), Reply::Stat(st)) => {
                if is_subvol_root(&st) {
                    self.push(Task::Delete(n));
                } else if is_dir(&st) {
                    self.push(Task::Into(n));
                }
            },
            (Task::Into(n), Reply::Done) => {
                self.push(Task::Leave);
                self.push(Task::Seek);
                assert(self@ =~= rest + seq![TaskView::Leave, TaskView::Seek]);
            },
            (Task::Empty, Reply::Names(names)) => {
                self.push_all(names, true);
            },
            (Task::Seek, Reply::Names(names)) => {
                self.push_all(names, false);
            },
            _ => {},
        }
        true
    }

    /// Adds a task for every name, the first one on top.
    fn push_all(&mut self, names: Vec<Vec<u8>>, delete: bool)
        ensures
            final(self)@ == old(self)@ + (if delete {
                deletes(name_views(names@))
            } else {
                nesteds(name_views(names@))
            }),
    {
        let ghost was = self@;
        let ghost ns = name_views(names@);
        let ghost goal = if delete {
            deletes(ns)
        } else {
            nesteds(ns)
        };
        let mut left: usize = names.len();
        assert(was + goal.take(0) =~= was);
        while left > 0
            invariant
                left <= names@.len(),
                ns == name_views(names@),
                goal == (if delete {
                    deletes(ns)
                } else {
                    nesteds(ns)
                }),
                self@ == was + goal.take(names@.len() - left),
            decreases left,
        {
            let n = bytes_of(&names[left - 1]);
            let ghost k = names@.len() - left;
            assert(ns[left - 1] == n@);
            assert(goal.take(k + 1) =~= goal.take(k).push(goal[k]));
            if delete {
                self.push(Task::Delete(n));
            } else {
                self.push(Task::Nested(n));
            }
            assert(self@ =~= was + goal.take(k + 1));
            left -= 1;
        }
        assert(goal.take(goal.len() as int) =~= goal);
    }
}

// ---- what holds of entries, paths and replies ----

/// What an entry is goes by the four bits of its mode that say so, as one number: four
/// for a directory, eight for a file. Permissions make no difference, so a link, a
/// device or a socket is neither. A subvolume's root is the directory with the number
/// 256, on whatever device.
pub proof fn law_entries_go_by_their_type_bits(st: Stat, other: Stat)
    ensures
        dir_mode(st) <==> (st.mode / 4096) % 16 == 4,
        file_mode(st) <==> (st.mode / 4096) % 16 == 8,
        subvol_mode(st) <==> (st.mode / 4096) % 16 == 4 && st.ino == 256,
        (st.mode / 4096) % 16 == (other.mode / 4096) % 16 ==> dir_mode(st) == dir_mode(other)
            && file_mode(st) == file_mode(other),
{
    let (m, n) = (st.mode, other.mode);
    assert((m & 0o170000 == 0o040000) == ((m / 4096) % 16 == 4) && (m & 0o170000 == 0o100000) == ((
    m / 4096) % 16 == 8)) by (bit_vector);
    assert((n & 0o170000 == 0o040000) == ((n / 4096) % 16 == 4) && (n & 0o170000 == 0o100000) == ((
    n / 4096) % 16 == 8)) by (bit_vector);
}

/// A path is refused wherever a dot or two dots stand in it as a name, and only there:
/// a name that merely holds dots is fine.
pub proof fn law_dots_are_refused_anywhere(a: Seq<char>, b: Seq<char>, name: Seq<char>)
    ensures
        has_dots(components(a + seq!['/'] + "."@ + seq!['/'] + b)),
        has_dots(components(a + seq!['/'] + ".."@ + seq!['/'] + b)),
        is_component(name) && !has_dots(components(a)) && !has_dots(components(b)) ==> (has_dots(
            components(a + seq!['/'] + name + seq!['/'] + b),
        ) <==> name == seq!['.'] || name == seq!['.', '.']),
{
    reveal_strlit(".");
    reveal_strlit("..");
    assert("."@ =~= seq!['.']);
    assert(".."@ =~= seq!['.', '.']);
    lemma_dots_in_between(a, b, "."@);
    lemma_dots_in_between(a, b, ".."@);
    if is_component(name) {
        lemma_dots_in_between(a, b, name);
        let all = components(a + seq!['/'] + name + seq!['/'] + b);
        let (p, q) = (components(a), components(b));
        if !has_dots(p) && !has_dots(q) && has_dots(all) {
            let i = choose|i: int|
                0 <= i < all.len() && (#[trigger] all[i] == "."@ || all[i] == ".."@);
            if i < p.len() {
                assert(p[i] == all[i]);
            } else if i > p.len() {
                assert(q[i - p.len() - 1] == all[i]);
            }
        }
        if name == "."@ || name == ".."@ {
            assert(all[p.len() as int] == name);
        }
    }
    let x = components(a + seq!['/'] + "."@ + seq!['/'] + b);
    assert(x[components(a).len() as int] == "."@);
    let y = components(a + seq!['/'] + ".."@ + seq!['/'] + b);
    assert(y[components(a).len() as int] == ".."@);
}

proof fn lemma_dots_in_between(a: Seq<char>, b: Seq<char>, name: Seq<char>)
    requires
        is_component(name),
    ensures
        components(a + seq!['/'] + name + seq!['/'] + b) == components(a) + seq![name] + components(
            b,
        ),
{
    law_names_of_paths_add_up(a + seq!['/'] + name, b);
    law_names_of_paths_add_up(a, name);
    law_names_of_paths_add_up(name, b);
}

/// A directory that is not the one that was seen, by its number or by its device, ends
/// the deletion. One that is the same is gone through: a subvolume for the subvolumes in
/// it before it is destroyed, any other for all that is in it before it is removed.
pub proof fn law_exchanged_directories_end_the_deletion(
    rest: Seq<TaskView>,
    n: Seq<u8>,
    seen: Stat,
    now: Stat,
)
    ensures
        ({
            let after = after_reply(rest.push(TaskView::Check(n, seen)), ReplyView::Stat(now));
            &&& now.ino != seen.ino || now.dev != seen.dev ==> after is None
            &&& now.ino == seen.ino && now.dev == seen.dev ==> after is Some && after->0.len()
                == rest.len() + 3 && after->0.take(rest.len() as int) == rest && after->0[after->0.len()
                - 2] is Leave
            &&& now.ino == seen.ino && now.dev == seen.dev && subvol_mode(seen)
                ==> after->0[rest.len() as int] == TaskView::Destroy(n) && after->0.last() is Seek
            &&& now.ino == seen.ino && now.dev == seen.dev && !subvol_mode(seen)
                ==> after->0[rest.len() as int] == TaskView::Rmdir(n) && after->0.last() is Empty
        }),
{
    let tasks = rest.push(TaskView::Check(n, seen));
    assert(tasks.drop_last() =~= rest);
    let after = after_reply(tasks, ReplyView::Stat(now));
    if after is Some {
        assert(after->0.take(rest.len() as int) =~= rest);
    }
}

/// An entry that is to be deleted is unlinked if it is no directory, whatever else it
/// is, and looked into if it is one. In the search for subvolumes those are deleted,
/// other directories looked through, and everything else is left alone.
pub proof fn law_entries_are_treated_by_what_they_are(
    rest: Seq<TaskView>,
    n: Seq<u8>,
    st: Stat,
)
    ensures
        ({
            let delete = after_reply(rest.push(TaskView::Delete(n)), ReplyView::Stat(st));
            let search = after_reply(rest.push(TaskView::Nested(n)), ReplyView::Stat(st));
            &&& !dir_mode(st) ==> delete == Some(rest.push(TaskView::Unlink(n)))
            &&& dir_mode(st) ==> delete == Some(rest.push(TaskView::Check(n, st)))
            &&& !dir_mode(st) ==> search == Some(rest)
            &&& dir_mode(st) && st.ino == 256 ==> search == Some(rest.push(TaskView::Delete(n)))
            &&& dir_mode(st) && st.ino != 256 ==> search == Some(rest.push(TaskView::Into(n)))
        }),
{
    assert(rest.push(TaskView::Delete(n)).drop_last() =~= rest);
    assert(rest.push(TaskView::Nested(n)).drop_last() =~= rest);
}

/// Every entry of a directory gets its turn, in the order in which the kernel lists
/// them.
pub proof fn law_every_entry_gets_its_turn(names: Seq<Seq<u8>>, i: int)
    requires
        0 <= i < names.len(),
    ensures
        deletes(names).len() == names.len(),
        nesteds(names).len() == names.len(),
        deletes(names).reverse()[i] == TaskView::Delete(names[i]),
        nesteds(names).reverse()[i] == TaskView::Nested(names[i]),
{
}

} // verus!

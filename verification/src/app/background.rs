//! What deletions that run in the background do to the interface.

use vstd::prelude::*;

use crate::app::{App, Dialog};
use crate::app::model::{AppView, DialogView};
use crate::text::{concat, join_text, joined, lemma_texts_push, texts};
use crate::tree::{NodeId, Tree};
use crate::tree::model::{path, without, NodeView, TreeView};

verus! {

/// The line that tells why node `id` could not be deleted.
pub open spec fn failure(a: Seq<NodeView>, id: int, error: Seq<char>) -> Seq<char> {
    "/"@ + joined(path(a, id), seq!['/']) + ": "@ + error
}

/// The state after an attempt to delete node `id`.
pub open spec fn after_attempt(
    v: AppView,
    a: Seq<NodeView>,
    id: int,
    error: Option<Seq<char>>,
) -> AppView {
    AppView {
        deleting: (v.deleting - 1) as usize,
        delete_errors: match error {
            Some(e) => v.delete_errors.push(failure(a, id, e)),
            None => v.delete_errors,
        },
        ..v
    }
}

/// The state once failures have been shown: when everything has been tried and
/// no other dialog is open.
pub open spec fn told(v: AppView) -> AppView {
    if v.deleting == 0 && v.dialog is Closed && v.delete_errors.len() > 0 {
        AppView {
            dialog: DialogView::Message {
                title: "Delete failed"@,
                text: joined(v.delete_errors, seq!['\n']),
            },
            delete_errors: Seq::empty(),
            ..v
        }
    } else {
        v
    }
}

impl App {
    /// Notes that `n` targets are about to be deleted.
    pub fn deletion_started(&mut self, n: usize)
        requires
            old(self)@.deleting + n <= usize::MAX,
        ensures
            final(self)@ == (AppView {
                deleting: (old(self)@.deleting + n) as usize,
                ..old(self)@
            }),
    {
        self.deleting = self.deleting + n;
    }

    /// Notes that a target was deleted, or why not. What was deleted leaves the
    /// tree.
    pub fn deletion_done(&mut self, t: &mut Tree, id: NodeId, error: Option<String>)
        requires
            old(self)@.deleting > 0,
            old(t).wf(),
            id < old(t)@.nodes.len(),
        ensures
            final(t).wf(),
            final(t)@ == (match error {
                Some(_) => old(t)@,
                None => TreeView { nodes: without(old(t)@.nodes, id as int), ..old(t)@ },
            }),
            final(self)@ == after_attempt(
                old(self)@,
                old(t)@.nodes,
                id as int,
                match error {
                    Some(e) => Some(e@),
                    None => None,
                },
            ),
    {
        self.deleting = self.deleting - 1;
        match error {
            Some(e) => {
                let place = concat("/", t.path_of(id).as_str());
                let line = concat(concat(place.as_str(), ": ").as_str(), e.as_str());
                proof {
                    lemma_texts_push(self.delete_errors@, line);
                }
                self.delete_errors.push(line);
            },
            None => t.remove(id),
        }
    }

    /// Shows what could not be deleted, once everything has been tried and no
    /// other dialog is open.
    pub fn show_failures(&mut self)
        ensures
            final(self)@ == told(old(self)@),
    {
        if self.deleting > 0 || self.delete_errors.len() == 0 {
            return ;
        }
        if let Dialog::Closed = &self.dialog {
            let text = join_text(&self.delete_errors, "\n");
            proof {
                reveal_strlit("\n");
                assert("\n"@ =~= seq!['\n']);
            }
            self.dialog = Dialog::message("Delete failed", text.as_str());
            self.delete_errors = Vec::new();
            proof {
                assert(texts(self.delete_errors@) =~= Seq::<Seq<char>>::empty());
            }
        }
    }
}

/// When the last target has been tried, every failure is told, once.
pub proof fn law_failures_are_told(v: AppView, a: Seq<NodeView>, id: int, error: Seq<char>)
    requires
        v.deleting == 1,
        v.dialog is Closed,
    ensures
        told(after_attempt(v, a, id, Some(error))) == (AppView {
            deleting: 0,
            dialog: DialogView::Message {
                title: "Delete failed"@,
                text: joined(v.delete_errors.push(failure(a, id, error)), seq!['\n']),
            },
            delete_errors: Seq::empty(),
            ..v
        }),
        told(told(after_attempt(v, a, id, Some(error)))) == told(
            after_attempt(v, a, id, Some(error)),
        ),
{
}

} // verus!

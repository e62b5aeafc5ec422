//! A label store in memory.
//!
//! The store holds one label for each name.  A label is created empty, at
//! version zero, and moves only by a versioned update: a caller says which
//! version it expects, and the label moves on only if that is the version it
//! has.

use crate::storage::directory::recovery::{replay_label, replayed};
use crate::storage::directory::wal::LabelSetEntry;
use crate::storage::errors::LabelCreationError;
use crate::storage::label::{
    compare_and_set, layer_model, write_label, Label, LabelModel, LabelWrite,
};
use crate::text::same_text;
use vstd::prelude::*;
use vstd::string::StringExecFns;

verus! {

/// Where the label called `name` stands among `labels`, if there is one:
/// the last of that name.
pub open spec fn position(labels: Seq<LabelModel>, name: Seq<char>) -> Option<int>
    decreases labels.len(),
{
    if labels.len() == 0 {
        None
    } else if labels.last().name == name {
        Some(labels.len() - 1)
    } else {
        position(labels.drop_last(), name)
    }
}

/// A store of labels in memory.
pub struct MemoryLabelStore {
    labels: Vec<Label>,
}

impl View for MemoryLabelStore {
    type V = Seq<LabelModel>;

    /// The labels of the store, in the order of their creation.
    closed spec fn view(&self) -> Seq<LabelModel> {
        self.labels@.map_values(|l: Label| l@)
    }
}

impl MemoryLabelStore {
    /// A store without labels.
    pub fn new() -> (store: Self)
        ensures
            store@ == Seq::<LabelModel>::empty(),
    {
        let store = MemoryLabelStore { labels: Vec::new() };
        assert(store@ =~= Seq::<LabelModel>::empty());
        store
    }

    fn find(&self, name: &str) -> (found: Option<usize>)
        ensures
            match found {
                Some(i) => position(self@, name@) == Some(i as int) && i < self@.len(),
                None => position(self@, name@) is None,
            },
    {
        let ghost labels = self@;
        let mut i: usize = self.labels.len();
        proof {
            assert(labels.take(i as int) =~= labels);
        }
        while i > 0
            invariant
                i <= self.labels@.len(),
                labels == self@,
                position(labels, name@) == position(labels.take(i as int), name@),
            decreases i,
        {
            i -= 1;
            proof {
                assert(labels.take(i as int + 1).drop_last() =~= labels.take(i as int));
                assert(labels.take(i as int + 1).last() == labels[i as int]);
                assert(labels[i as int] == self.labels@[i as int]@);
            }
            if same_text(self.labels[i].name.as_str(), name) {
                return Some(i);
            }
        }
        proof {
            assert(labels.take(0).len() == 0);
        }
        None
    }

    /// The names of all labels, in the order of their creation.
    pub fn labels(&self) -> (names: Vec<String>)
        ensures
            names@.len() == self@.len(),
            forall|i: int| 0 <= i < names@.len() ==> (#[trigger] names@[i])@ == self@[i].name,
    {
        let mut names: Vec<String> = Vec::new();
        let mut i: usize = 0;
        while i < self.labels.len()
            invariant
                i <= self.labels@.len(),
                names@.len() == i,
                forall|k: int| 0 <= k < i ==> (#[trigger] names@[k])@ == self@[k].name,
            decreases self.labels@.len() - i,
        {
            names.push(self.labels[i].name.clone());
            i += 1;
        }
        names
    }

    /// Creates the label called `name`: empty, at version zero.  Where a
    /// label of that name exists, nothing changes.
    pub fn create_label(&mut self, name: &str) -> (result: Result<Label, LabelCreationError>)
        ensures
            position(old(self)@, name@) is Some ==> result == Err::<Label, LabelCreationError>(
                LabelCreationError::AlreadyExists,
            ) && final(self)@ == old(self)@,
            position(old(self)@, name@) is None ==> result is Ok && result->Ok_0@ == (LabelModel {
                name: name@,
                layer: None,
                version: 0,
            }) && final(self)@ == old(self)@.push(result->Ok_0@),
    {
        match self.find(name) {
            Some(_) => Err(LabelCreationError::AlreadyExists),
            None => {
                let label = Label::new_empty(name);
                self.labels.push(label.clone());
                proof {
                    assert(self@ =~= old(self)@.push(label@));
                }
                Ok(label)
            },
        }
    }

    /// The label called `name`, if there is one.
    pub fn get_label(&self, name: &str) -> (label: Option<Label>)
        ensures
            match position(self@, name@) {
                Some(i) => label is Some && label->Some_0@ == self@[i],
                None => label is None,
            },
    {
        match self.find(name) {
            Some(i) => {
                proof {
                    assert(self@[i as int] == self.labels@[i as int]@);
                }
                Some(self.labels[i].clone())
            },
            None => None,
        }
    }

    /// Moves the label that `expected` names to `layer`, if it is at the
    /// version of `expected`: a versioned update, as
    /// [`compare_and_set`] says.  A label that is missing, or one at the
    /// last version there is, does not move, and the answer is `false`.
    pub fn set_label(&mut self, expected: &Label, layer: Option<[u32; 5]>) -> (moved: bool)
        ensures
            match position(old(self)@, expected@.name) {
                Some(i) => if old(self)@[i].version >= u64::MAX {
                    !moved && final(self)@ == old(self)@
                } else {
                    moved == compare_and_set(
                        old(self)@[i],
                        expected@.version,
                        layer_model(layer),
                    ).1 && final(self)@ == old(self)@.update(
                        i,
                        compare_and_set(old(self)@[i], expected@.version, layer_model(layer)).0,
                    )
                },
                None => !moved && final(self)@ == old(self)@,
            },
    {
        match self.find(expected.name.as_str()) {
            Some(i) => {
                proof {
                    assert(self@[i as int] == self.labels@[i as int]@);
                }
                if self.labels[i].version == u64::MAX {
                    return false;
                }
                let decision = write_label(&self.labels[i], expected, layer);
                match decision {
                    LabelWrite::Stale => {
                        proof {
                            assert(self@ =~= old(self)@.update(i as int, old(self)@[i as int]));
                        }
                        false
                    },
                    LabelWrite::Unchanged => {
                        proof {
                            assert(self@ =~= old(self)@.update(i as int, old(self)@[i as int]));
                        }
                        true
                    },
                    LabelWrite::Write(label) => {
                        self.labels.set(i, label);
                        proof {
                            assert(self@ =~= old(self)@.update(i as int, label@));
                        }
                        true
                    },
                }
            },
            None => false,
        }
    }

    /// Replays the moves of a recovery on every label of the store.
    pub fn replay(&mut self, moves: &Vec<LabelSetEntry>)
        requires
            forall|i: int| 0 <= i < old(self)@.len() ==> (#[trigger] old(self)@[i]).version
                < u64::MAX,
        ensures
            final(self)@.len() == old(self)@.len(),
            forall|i: int|
                0 <= i < old(self)@.len() ==> (#[trigger] final(self)@[i]) == replayed(
                    old(self)@[i],
                    moves@.map_values(|e: LabelSetEntry| e@),
                ),
    {
        let mut i: usize = 0;
        while i < self.labels.len()
            invariant
                i <= self.labels@.len(),
                self@.len() == old(self)@.len(),
                forall|k: int| 0 <= k < old(self)@.len() ==> (#[trigger] old(self)@[k]).version
                    < u64::MAX,
                forall|k: int|
                    0 <= k < i ==> (#[trigger] self@[k]) == replayed(
                        old(self)@[k],
                        moves@.map_values(|e: LabelSetEntry| e@),
                    ),
                forall|k: int| i <= k < self@.len() ==> (#[trigger] self@[k]) == old(self)@[k],
            decreases self.labels@.len() - i,
        {
            let ghost before = self@;
            proof {
                assert(self@[i as int] == old(self)@[i as int]);
                assert(self.labels@[i as int]@ == self@[i as int]);
            }
            match replay_label(&self.labels[i], moves) {
                LabelWrite::Write(label) => {
                    self.labels.set(i, label);
                    proof {
                        assert(self@ =~= before.update(i as int, label@));
                    }
                },
                _ => {},
            }
            i += 1;
        }
    }
}

} // verus!

//! Model of the file sink.
//!
//! The parser only says what is to be done with files. This module says what
//! the files are once it has been done: [`perform_all`] carries out a list of
//! actions on a store of files. What the parser guarantees about file
//! contents is stated over the store that results.

use crate::model::ActionView;
use vstd::prelude::*;

verus! {

/// A file as the sink holds it.
pub ghost struct StoredFile {
    pub filename: Seq<u8>,
    pub path: Seq<u8>,
    pub content: Seq<u8>,
    pub closed: bool,
}

/// The store after one action. A new file is added at the end; writing and
/// closing act on the file that was added last, and do nothing on an empty
/// store. A refusal leaves the store as it is.
pub open spec fn perform(store: Seq<StoredFile>, action: ActionView) -> Seq<StoredFile> {
    match action {
        ActionView::OpenFile { filename, path } => store.push(
            StoredFile { filename, path, content: Seq::empty(), closed: false },
        ),
        ActionView::Write(bytes) => if store.len() > 0 {
            store.update(
                store.len() - 1,
                StoredFile { content: store.last().content + bytes, ..store.last() },
            )
        } else {
            store
        },
        ActionView::CloseFile => if store.len() > 0 {
            store.update(store.len() - 1, StoredFile { closed: true, ..store.last() })
        } else {
            store
        },
        ActionView::RefuseFile { filename } => store,
    }
}

/// The store after a list of actions, carried out in order.
pub open spec fn perform_all(store: Seq<StoredFile>, actions: Seq<ActionView>) -> Seq<StoredFile>
    decreases actions.len(),
{
    if actions.len() == 0 {
        store
    } else {
        perform_all(perform(store, actions[0]), actions.drop_first())
    }
}

/// Carrying out two lists one after the other is carrying out their
/// concatenation.
pub proof fn lemma_perform_all_concat(
    store: Seq<StoredFile>,
    first: Seq<ActionView>,
    second: Seq<ActionView>,
)
    ensures
        perform_all(store, first + second) == perform_all(perform_all(store, first), second),
    decreases first.len(),
{
    if first.len() == 0 {
        assert(first + second =~= second);
    } else {
        let joined = first + second;
        assert(joined[0] == first[0]);
        assert(joined.drop_first() =~= first.drop_first() + second);
        lemma_perform_all_concat(perform(store, first[0]), first.drop_first(), second);
    }
}

/// Carrying out a single action.
pub proof fn lemma_perform_all_one(store: Seq<StoredFile>, action: ActionView)
    ensures
        perform_all(store, seq![action]) == perform(store, action),
{
    let one = seq![action];
    assert(one.drop_first() =~= Seq::<ActionView>::empty());
    assert(perform_all(perform(store, action), one.drop_first()) == perform(store, action));
}

/// Writing two runs of bytes one after the other gives the file that writing
/// their concatenation gives.
pub proof fn lemma_perform_writes_merge(store: Seq<StoredFile>, first: Seq<u8>, second: Seq<u8>)
    ensures
        perform(perform(store, ActionView::Write(first)), ActionView::Write(second)) == perform(
            store,
            ActionView::Write(first + second),
        ),
{
    if store.len() > 0 {
        let once = perform(store, ActionView::Write(first));
        assert(once.last().content + second =~= store.last().content + (first + second));
        assert(perform(once, ActionView::Write(second)) =~= perform(
            store,
            ActionView::Write(first + second),
        ));
    }
}

/// Whether a file is open after the actions were carried out in order,
/// starting with a file open or none. `None` where an action comes out of
/// turn: a file is opened or refused while another is open, or bytes are
/// written or a file is closed while none is open.
pub open spec fn open_after(open: bool, actions: Seq<ActionView>) -> Option<bool>
    decreases actions.len(),
{
    if actions.len() == 0 {
        Some(open)
    } else {
        match actions[0] {
            ActionView::OpenFile { filename, path } => if open {
                None
            } else {
                open_after(true, actions.drop_first())
            },
            ActionView::Write(bytes) => if open {
                open_after(true, actions.drop_first())
            } else {
                None
            },
            ActionView::CloseFile => if open {
                open_after(false, actions.drop_first())
            } else {
                None
            },
            ActionView::RefuseFile { filename } => if open {
                None
            } else {
                open_after(false, actions.drop_first())
            },
        }
    }
}

/// Two lists of actions are in turn one after the other where the first is
/// in turn and the second is in turn from where the first leaves the sink.
pub proof fn lemma_open_after_concat(
    open: bool,
    first: Seq<ActionView>,
    second: Seq<ActionView>,
)
    ensures
        open_after(open, first + second) == (match open_after(open, first) {
            Some(then) => open_after(then, second),
            None => None,
        }),
    decreases first.len(),
{
    if first.len() == 0 {
        assert(first + second =~= second);
    } else {
        let joined = first + second;
        assert(joined[0] == first[0]);
        assert(joined.drop_first() =~= first.drop_first() + second);
        match first[0] {
            ActionView::OpenFile { filename, path } => {
                if !open {
                    lemma_open_after_concat(true, first.drop_first(), second);
                }
            },
            ActionView::Write(bytes) => {
                if open {
                    lemma_open_after_concat(true, first.drop_first(), second);
                }
            },
            ActionView::CloseFile => {
                if open {
                    lemma_open_after_concat(false, first.drop_first(), second);
                }
            },
            ActionView::RefuseFile { filename } => {
                if !open {
                    lemma_open_after_concat(false, first.drop_first(), second);
                }
            },
        }
    }
}

} // verus!

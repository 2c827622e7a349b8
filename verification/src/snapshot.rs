//! Where account states come from.

use vstd::prelude::*;

verus! {

/// The state of an account as of right after some block.
#[derive(Clone, Debug)]
pub struct Snapshot {
    /// The encoded account.
    pub raw_account: Vec<u8>,
    /// A jar of the account is locked: an operation on it is under way.
    pub any_jar_locked: bool,
}

/// What a snapshot holds.
pub struct SnapshotView {
    pub raw_account: Seq<u8>,
    pub any_jar_locked: bool,
}

impl View for Snapshot {
    type V = SnapshotView;

    open spec fn view(&self) -> SnapshotView {
        SnapshotView { raw_account: self.raw_account@, any_jar_locked: self.any_jar_locked }
    }
}

/// What an answer holds.
pub open spec fn answer_view(answer: Option<Snapshot>) -> Option<SnapshotView> {
    match answer {
        Some(snapshot) => Some(snapshot@),
        None => None,
    }
}

/// What asking for an account's state at the start of the window gave.
#[derive(Clone, Debug)]
pub enum BaselineRead {
    /// The source panicked.
    Panicked,
    Failed(String),
    /// The encoded account, or `None` where the source has no state of it.
    Read(Option<Vec<u8>>),
}

/// A question that was put to a source, with its answer.
pub enum Question {
    /// For the account's state at the start of the window.
    Start { backend_account_id: i64, near_account_id: Seq<char>, read: BaselineRead },
    /// For the account's state as of right after a block.
    At { near_account_id: Seq<char>, block_height: u64, answer: Option<SnapshotView> },
}

/// The questions that were put to a source, in order.
pub type Questions = Seq<Question>;

/// A source of account states. Nothing is promised of its answers, and asking
/// again may give others.
pub trait SnapshotSource {
    /// A missing state means that the account has none. Only proofs speak of it.
    spec fn authoritative(&self) -> bool;

    /// The questions put to it so far. Only proofs speak of it.
    spec fn asked(&self) -> Questions;

    /// Whether a missing state means that the account has none, rather than
    /// that this source does not know it.
    fn is_authoritative(&self) -> (yes: bool)
        ensures
            yes == self.authoritative(),
    ;

    /// The account's state at the start of the window.
    fn raw_account(&mut self, backend_account_id: i64, near_account_id: &str) -> (read:
        BaselineRead)
        ensures
            final(self).authoritative() == old(self).authoritative(),
            final(self).asked() == old(self).asked().push(
                (Question::Start { backend_account_id, near_account_id: near_account_id@, read }),
            ),
    ;

    /// The account's state as of right after `block_height`. Best effort: a
    /// fetch that fails or panics gives `None`.
    fn raw_account_at(&mut self, near_account_id: &str, block_height: u64) -> (answer: Option<
        Snapshot,
    >)
        ensures
            final(self).authoritative() == old(self).authoritative(),
            final(self).asked() == old(self).asked().push(
                (Question::At {
                    near_account_id: near_account_id@,
                    block_height,
                    answer: answer_view(answer),
                }),
            ),
    ;
}

/// What was asked between `before` and `after`.
pub open spec fn asked_since(before: Questions, after: Questions) -> Questions {
    after.skip(before.len() as int)
}

/// What reading the local `snapshots` table gave of one account. The table holds
/// states as of the start of the window only, and not of every account.
pub struct LocalSnapshot {
    read: BaselineRead,
    asked: Ghost<Questions>,
}

impl LocalSnapshot {
    /// What the table gave.
    pub closed spec fn held(&self) -> BaselineRead {
        self.read
    }

    pub fn new(read: BaselineRead) -> (local: Self)
        ensures
            local.held() == read,
            local.asked() == Seq::<Question>::empty(),
    {
        LocalSnapshot { read, asked: Ghost(Seq::empty()) }
    }
}

/// `a` and `b` say the same.
pub open spec fn same_read(a: BaselineRead, b: BaselineRead) -> bool {
    match (a, b) {
        (BaselineRead::Panicked, BaselineRead::Panicked) => true,
        (BaselineRead::Failed(x), BaselineRead::Failed(y)) => x@ == y@,
        (BaselineRead::Read(None), BaselineRead::Read(None)) => true,
        (BaselineRead::Read(Some(x)), BaselineRead::Read(Some(y))) => x@ == y@,
        _ => false,
    }
}

impl SnapshotSource for LocalSnapshot {
    open spec fn authoritative(&self) -> bool {
        false
    }

    closed spec fn asked(&self) -> Questions {
        self.asked@
    }

    fn is_authoritative(&self) -> (yes: bool) {
        false
    }

    fn raw_account(&mut self, backend_account_id: i64, near_account_id: &str) -> (read:
        BaselineRead)
        ensures
            same_read(read, old(self).held()),
            final(self).held() == old(self).held(),
    {
        let read: BaselineRead = match &self.read {
            BaselineRead::Panicked => BaselineRead::Panicked,
            BaselineRead::Failed(message) => BaselineRead::Failed(message.clone()),
            BaselineRead::Read(None) => BaselineRead::Read(None),
            BaselineRead::Read(Some(held)) => {
                let raw: Vec<u8> = held.clone();
                assert(raw@ =~= held@);
                BaselineRead::Read(Some(raw))
            },
        };
        self.asked = Ghost(
            self.asked@.push(
                (Question::Start { backend_account_id, near_account_id: near_account_id@, read }),
            ),
        );
        read
    }

    fn raw_account_at(&mut self, near_account_id: &str, block_height: u64) -> (answer: Option<
        Snapshot,
    >)
        ensures
            answer is None,
            final(self).held() == old(self).held(),
    {
        self.asked = Ghost(
            self.asked@.push(
                (Question::At { near_account_id: near_account_id@, block_height, answer: None }),
            ),
        );
        None
    }
}

} // verus!

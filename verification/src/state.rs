//! Per-mailbox progress: the identifier of the last message seen in each
//! mailbox of each account.

use crate::text::str_eq;
use vstd::prelude::*;

verus! {

/// The last message seen in one mailbox of one account.
#[derive(Debug)]
pub struct LastSeenMsg {
    pub account: String,
    pub mailbox: String,
    pub uid: u32,
}

pub struct LastSeenView {
    pub account: Seq<char>,
    pub mailbox: Seq<char>,
    pub uid: u32,
}

impl View for LastSeenMsg {
    type V = LastSeenView;

    open spec fn view(&self) -> LastSeenView {
        LastSeenView { account: self.account@, mailbox: self.mailbox@, uid: self.uid }
    }
}

impl DeepView for LastSeenMsg {
    type V = LastSeenView;

    open spec fn deep_view(&self) -> LastSeenView {
        self@
    }
}

/// The account and mailbox that a row speaks of.
pub open spec fn key_of(row: LastSeenView) -> (Seq<char>, Seq<char>) {
    (row.account, row.mailbox)
}

/// The map that a table of rows stands for; of two rows for one mailbox the
/// later one counts.
pub open spec fn marks(rows: Seq<LastSeenView>) -> Map<(Seq<char>, Seq<char>), u32>
    decreases rows.len(),
{
    if rows.len() == 0 {
        Map::empty()
    } else {
        marks(rows.drop_last()).insert(key_of(rows.last()), rows.last().uid)
    }
}

/// No mailbox has two rows.
pub open spec fn one_row_each(rows: Seq<LastSeenView>) -> bool {
    forall|i: int, j: int| 0 <= i < j < rows.len() ==> key_of(rows[i]) != key_of(rows[j])
}

/// The mailboxes that have a mark are those that have a row.
proof fn lemma_marks_dom(rows: Seq<LastSeenView>, key: (Seq<char>, Seq<char>))
    ensures
        marks(rows).contains_key(key) <==> exists|i: int|
            0 <= i < rows.len() && key_of(#[trigger] rows[i]) == key,
    decreases rows.len(),
{
    if rows.len() > 0 {
        let before = rows.drop_last();
        lemma_marks_dom(before, key);
        if marks(rows).contains_key(key) {
            if key_of(rows.last()) == key {
                assert(key_of(rows[rows.len() - 1]) == key);
            } else {
                let i = choose|i: int| 0 <= i < before.len() && key_of(#[trigger] before[i]) == key;
                assert(key_of(rows[i]) == key);
            }
        }
        if exists|i: int| 0 <= i < rows.len() && key_of(#[trigger] rows[i]) == key {
            let i = choose|i: int| 0 <= i < rows.len() && key_of(#[trigger] rows[i]) == key;
            if i < before.len() {
                assert(key_of(before[i]) == key);
            }
        }
    }
}

/// Where no mailbox has two rows, the mark of a mailbox is in its row.
proof fn lemma_marks_row(rows: Seq<LastSeenView>, i: int)
    requires
        one_row_each(rows),
        0 <= i < rows.len(),
    ensures
        marks(rows).contains_key(key_of(rows[i])),
        marks(rows)[key_of(rows[i])] == rows[i].uid,
    decreases rows.len(),
{
    let before = rows.drop_last();
    if i < rows.len() - 1 {
        assert(one_row_each(before)) by {
            assert forall|a: int, b: int| 0 <= a < b < before.len() implies key_of(before[a])
                != key_of(before[b]) by {
                assert(key_of(rows[a]) != key_of(rows[b]));
            }
        }
        lemma_marks_row(before, i);
        assert(key_of(rows[i]) != key_of(rows[rows.len() - 1]));
    }
}

/// Where no mailbox has two rows, a new mark in the row of a mailbox is a
/// new mark for that mailbox and for no other.
proof fn lemma_marks_update(rows: Seq<LastSeenView>, i: int, uid: u32)
    requires
        one_row_each(rows),
        0 <= i < rows.len(),
    ensures
        marks(rows.update(i, LastSeenView { uid, ..rows[i] })) == marks(rows).insert(
            key_of(rows[i]),
            uid,
        ),
        one_row_each(rows.update(i, LastSeenView { uid, ..rows[i] })),
    decreases rows.len(),
{
    let row = LastSeenView { uid, ..rows[i] };
    let after = rows.update(i, row);
    let before = rows.drop_last();
    assert(one_row_each(after)) by {
        assert forall|a: int, b: int| 0 <= a < b < after.len() implies key_of(after[a]) != key_of(
            after[b],
        ) by {
            assert(key_of(rows[a]) != key_of(rows[b]));
        }
    }
    if i == rows.len() - 1 {
        assert(after.drop_last() =~= before);
        assert(marks(after) =~= marks(rows).insert(key_of(rows[i]), uid));
    } else {
        assert(one_row_each(before)) by {
            assert forall|a: int, b: int| 0 <= a < b < before.len() implies key_of(before[a])
                != key_of(before[b]) by {
                assert(key_of(rows[a]) != key_of(rows[b]));
            }
        }
        lemma_marks_update(before, i, uid);
        assert(after.drop_last() =~= before.update(i, row));
        assert(key_of(rows[i]) != key_of(rows[rows.len() - 1]));
        assert(marks(after) =~= marks(rows).insert(key_of(rows[i]), uid));
    }
}

/// The marks of all mailboxes.
pub struct State {
    rows: Vec<LastSeenMsg>,
}

impl View for State {
    type V = Map<(Seq<char>, Seq<char>), u32>;

    closed spec fn view(&self) -> Map<(Seq<char>, Seq<char>), u32> {
        marks(self.rows.deep_view())
    }
}

impl State {
    #[verifier::type_invariant]
    spec fn one_row_per_mailbox(self) -> bool {
        one_row_each(self.rows.deep_view())
    }

    /// A state in which no mailbox was seen yet.
    pub fn new() -> (state: State)
        ensures
            state@ == Map::<(Seq<char>, Seq<char>), u32>::empty(),
    {
        State { rows: Vec::new() }
    }

    /// The row of the mailbox, if it has one.
    fn position(rows: &Vec<LastSeenMsg>, account: &str, mailbox: &str) -> (found: Option<usize>)
        ensures
            match found {
                Some(i) => i < rows.len() && key_of(rows.deep_view()[i as int]) == (
                    account@,
                    mailbox@,
                ),
                None => forall|k: int|
                    0 <= k < rows.len() ==> key_of(#[trigger] rows.deep_view()[k]) != (
                        account@,
                        mailbox@,
                    ),
            },
    {
        let mut i: usize = 0;
        while i < rows.len()
            invariant
                i <= rows.len(),
                forall|k: int|
                    0 <= k < i ==> key_of(#[trigger] rows.deep_view()[k]) != (account@, mailbox@),
            decreases rows.len() - i,
        {
            assert(rows.deep_view()[i as int] == rows[i as int]@);
            if str_eq(rows[i].account.as_str(), account) && str_eq(
                rows[i].mailbox.as_str(),
                mailbox,
            ) {
                return Some(i);
            }
            i += 1;
        }
        None
    }

    /// Records `uid` as the last message seen in the mailbox, whatever was
    /// recorded before: the last write wins, also with a lower identifier.
    pub fn set(&mut self, account: &str, mailbox: &str, uid: u32)
        ensures
            final(self)@ == old(self)@.insert((account@, mailbox@), uid),
    {
        proof {
            use_type_invariant(&*self);
        }
        let mut rows: Vec<LastSeenMsg> = Vec::new();
        std::mem::swap(&mut rows, &mut self.rows);
        let ghost before = rows.deep_view();
        let row = LastSeenMsg { account: account.to_owned(), mailbox: mailbox.to_owned(), uid };
        match State::position(&rows, account, mailbox) {
            Some(i) => {
                proof {
                    lemma_marks_update(before, i as int, uid);
                }
                rows.set(i, row);
                assert(rows.deep_view() =~= before.update(
                    i as int,
                    LastSeenView { uid, ..before[i as int] },
                ));
            },
            None => {
                rows.push(row);
                assert(rows.deep_view() =~= before.push(row@));
                assert(rows.deep_view().drop_last() =~= before);
                assert(one_row_each(rows.deep_view())) by {
                    assert forall|a: int, b: int|
                        0 <= a < b < rows.deep_view().len() implies key_of(rows.deep_view()[a])
                        != key_of(rows.deep_view()[b]) by {
                        assert(rows.deep_view()[a] == before[a]);
                        if b < before.len() {
                            assert(rows.deep_view()[b] == before[b]);
                        }
                    }
                }
            },
        }
        self.rows = rows;
    }

    /// The identifier recorded for the mailbox; `None` where it was never
    /// seen.
    pub fn get(&self, account: &str, mailbox: &str) -> (uid: Option<u32>)
        ensures
            uid == if self@.contains_key((account@, mailbox@)) {
                Some(self@[(account@, mailbox@)])
            } else {
                None
            },
    {
        proof {
            use_type_invariant(self);
            lemma_marks_dom(self.rows.deep_view(), (account@, mailbox@));
        }
        match State::position(&self.rows, account, mailbox) {
            Some(i) => {
                proof {
                    lemma_marks_row(self.rows.deep_view(), i as int);
                }
                assert(self.rows.deep_view()[i as int] == self.rows[i as int]@);
                Some(self.rows[i].uid)
            },
            None => None,
        }
    }
}

} // verus!

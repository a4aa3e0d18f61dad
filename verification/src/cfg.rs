//! The configuration: the accounts to mirror and the place of the store.

use crate::text::str_eq;
use vstd::prelude::*;
use vstd::string::StringExecFns;

verus! {

/// One account of a mail server.
#[derive(Clone)]
pub struct ImapAccount {
    pub addr: String,
    pub port: u16,
    pub user: String,
    pub pass: String,
    /// The mailboxes that are never fetched.
    pub ignore_mailboxes: Vec<String>,
}

/// What stands in place of a password where an account is shown.
pub open spec fn hidden() -> Seq<char> {
    "<XXXXX>"@
}

impl Default for ImapAccount {
    fn default() -> (account: ImapAccount)
        ensures
            account.addr@.len() == 0,
            account.port == 993,
            account.user@.len() == 0,
            account.pass@.len() == 0,
            account.ignore_mailboxes@.len() == 0,
    {
        ImapAccount {
            addr: String::new(),
            port: 993,
            user: String::new(),
            pass: String::new(),
            ignore_mailboxes: Vec::new(),
        }
    }
}

impl ImapAccount {
    /// The account as it may be shown: everything but the password.
    pub fn fmt(&self) -> (shown: ImapAccount)
        ensures
            shown.addr@ == self.addr@,
            shown.port == self.port,
            shown.user@ == self.user@,
            shown.pass@ == hidden(),
            shown.ignore_mailboxes.deep_view() == self.ignore_mailboxes.deep_view(),
    {
        let mut ignore_mailboxes: Vec<String> = Vec::new();
        let mut i: usize = 0;
        while i < self.ignore_mailboxes.len()
            invariant
                i <= self.ignore_mailboxes.len(),
                ignore_mailboxes.deep_view() == self.ignore_mailboxes.deep_view().take(i as int),
            decreases self.ignore_mailboxes.len() - i,
        {
            let ghost before = ignore_mailboxes.deep_view();
            ignore_mailboxes.push(self.ignore_mailboxes[i].clone());
            assert(ignore_mailboxes.deep_view() =~= before.push(self.ignore_mailboxes[i as int]@));
            i += 1;
            assert(ignore_mailboxes.deep_view() =~= self.ignore_mailboxes.deep_view().take(
                i as int,
            ));
        }
        assert(self.ignore_mailboxes.deep_view().take(i as int)
            =~= self.ignore_mailboxes.deep_view());
        ImapAccount {
            addr: self.addr.clone(),
            port: self.port,
            user: self.user.clone(),
            pass: "<XXXXX>".to_owned(),
            ignore_mailboxes,
        }
    }

    /// Whether `mailbox` is one of those that are never fetched.
    pub fn ignores(&self, mailbox: &str) -> (ignored: bool)
        ensures
            ignored == self.ignore_mailboxes.deep_view().contains(mailbox@),
    {
        let mut i: usize = 0;
        while i < self.ignore_mailboxes.len()
            invariant
                i <= self.ignore_mailboxes.len(),
                forall|k: int| 0 <= k < i ==> self.ignore_mailboxes.deep_view()[k] != mailbox@,
            decreases self.ignore_mailboxes.len() - i,
        {
            assert(self.ignore_mailboxes.deep_view()[i as int] == self.ignore_mailboxes[i as int]@);
            if str_eq(self.ignore_mailboxes[i].as_str(), mailbox) {
                return true;
            }
            i += 1;
        }
        false
    }
}

/// The accounts, each under its name.
#[derive(Clone)]
pub struct Imap {
    pub accounts: Vec<(String, ImapAccount)>,
}

impl Default for Imap {
    fn default() -> (imap: Imap)
        ensures
            imap.accounts@.len() == 1,
            imap.accounts@[0].0@ == "default"@,
            imap.accounts@[0].1.addr@.len() == 0,
            imap.accounts@[0].1.port == 993,
            imap.accounts@[0].1.user@.len() == 0,
            imap.accounts@[0].1.pass@.len() == 0,
            imap.accounts@[0].1.ignore_mailboxes@.len() == 0,
    {
        let mut accounts: Vec<(String, ImapAccount)> = Vec::new();
        accounts.push(("default".to_owned(), ImapAccount::default()));
        Imap { accounts }
    }
}

/// The place of the store.
#[derive(Clone, Debug)]
pub struct Db {
    pub file: String,
}

impl Default for Db {
    fn default() -> (db: Db)
        ensures
            db.file@ == "ma.db"@,
    {
        Db { file: "ma.db".to_owned() }
    }
}

/// The address under which the store at `file` is opened, created where it
/// does not exist.
pub open spec fn database_url(file: Seq<char>) -> Seq<char> {
    "sqlite://"@ + file + "?mode=rwc"@
}

impl Db {
    /// The address under which the store is opened.
    pub fn url(&self) -> (url: String)
        ensures
            url@ == database_url(self.file@),
    {
        let mut url = "sqlite://".to_owned();
        url.append(self.file.as_str());
        url.append("?mode=rwc");
        url
    }
}

/// The whole configuration.
#[derive(Clone)]
pub struct Cfg {
    pub imap: Imap,
    pub db: Db,
}

impl Default for Cfg {
    fn default() -> (cfg: Cfg)
        ensures
            cfg.imap.accounts@.len() == 1,
            cfg.imap.accounts@[0].0@ == "default"@,
            cfg.imap.accounts@[0].1.addr@.len() == 0,
            cfg.imap.accounts@[0].1.port == 993,
            cfg.imap.accounts@[0].1.user@.len() == 0,
            cfg.imap.accounts@[0].1.pass@.len() == 0,
            cfg.imap.accounts@[0].1.ignore_mailboxes@.len() == 0,
            cfg.db.file@ == "ma.db"@,
    {
        Cfg { imap: Imap::default(), db: Db::default() }
    }
}

} // verus!

//! The account store: an ordered collection of credential records with
//! identifier assignment, editing, removal, and a textual persistence
//! protocol built on the codec in `crate::codec`.

use vstd::prelude::*;
use std::collections::HashMap;
use crate::codec::ser_accounts;

verus! {

broadcast use vstd::std_specs::hash::group_hash_axioms;

/// One stored credential record. `password` holds the output of the hasher,
/// never a plaintext secret: callers hash before inserting.
#[derive(Debug)]
pub struct Account {
    pub user_id: Option<u32>,
    pub email: Option<String>,
    pub username: String,
    pub password: String,
}

/// The mathematical value of an `Account`: the same fields over `Seq<char>`.
pub ghost struct AccountV {
    pub user_id: Option<u32>,
    pub email: Option<Seq<char>>,
    pub username: Seq<char>,
    pub password: Seq<char>,
}

impl View for Account {
    type V = AccountV;

    open spec fn view(&self) -> AccountV {
        AccountV {
            user_id: self.user_id,
            email: match self.email {
                Some(s) => Some(s@),
                None => None,
            },
            username: self.username@,
            password: self.password@,
        }
    }
}

/// Raw text collected from a user before hashing; an empty `email` means
/// "not provided".
#[derive(Debug)]
pub struct UserInputAccount {
    pub username: String,
    pub email: String,
    pub password: String,
}

impl Default for UserInputAccount {
    fn default() -> (r: Self)
        ensures
            r.username@ == Seq::<char>::empty(),
            r.email@ == Seq::<char>::empty(),
            r.password@ == Seq::<char>::empty(),
    {
        UserInputAccount { username: String::new(), email: String::new(), password: String::new() }
    }
}

/// Every failure the library reports; each variant carries a description.
#[derive(Debug)]
pub enum PasswordManagerError {
    HashingAlgorithmNotSupported(String),
    HashingFailed(String),
    NoAccounts(String),
    SerdeJson(String),
    EncodingFailed(String),
    DecodingFailed(String),
    InvalidPassword(String),
    InvalidUsernameEmail(String),
    AccountError(String),
    DatabaseError(String),
    FileIoError(String),
    Unknown,
}

/// The key under which an account is filed in `to_hasmap`: its identifier,
/// or zero where none was ever assigned.
pub open spec fn effective_id(a: AccountV) -> u32 {
    match a.user_id {
        Some(v) => v,
        None => 0u32,
    }
}

/// The map that filing a sequence of accounts by `effective_id` yields;
/// on a duplicate key the later record wins.
pub open spec fn hashmap_of(s: Seq<Account>) -> Map<u32, Account>
    decreases s.len(),
{
    if s.len() == 0 {
        Map::empty()
    } else {
        hashmap_of(s.drop_last()).insert(effective_id(s.last()@), s.last())
    }
}

/// Whether every record's identifier equals its position, as holds of a
/// session that started from an empty store and only ever appended.
pub open spec fn ids_sequential(s: Seq<AccountV>) -> bool {
    forall|i: int| 0 <= i < s.len() ==> (#[trigger] s[i]).user_id == Some(i as u32)
}

/// The identifier discipline: appending a record with the next identifier,
/// as `add` assigns it, keeps identifiers equal to positions. Since the
/// empty collection has the property vacuously, a session that starts empty
/// sees ids 0, 1, 2, ... in insertion order.
pub proof fn lemma_add_keeps_ids_sequential(s: Seq<AccountV>, a: AccountV)
    requires
        ids_sequential(s),
        a.user_id == Some(s.len() as u32),
    ensures
        ids_sequential(s.push(a)),
{
    assert forall|i: int| 0 <= i < s.push(a).len() implies (#[trigger] s.push(a)[i]).user_id
        == Some(i as u32) by {
        if i < s.len() {
            assert(s.push(a)[i] == s[i]);
        } else {
            assert(s.push(a)[i] == a);
        }
    }
}

/// The authoritative in-memory collection of accounts, in insertion order.
pub struct AccountManager {
    pub accounts: Vec<Account>,
}

impl View for AccountManager {
    type V = Seq<AccountV>;

    open spec fn view(&self) -> Seq<AccountV> {
        self.accounts@.map_values(|a: Account| a@)
    }
}

impl Default for AccountManager {
    fn default() -> (r: Self)
        ensures
            r@ == Seq::<AccountV>::empty(),
            r.accounts@.len() == 0,
    {
        let r = AccountManager { accounts: Vec::new() };
        proof {
            assert(r@ =~= Seq::<AccountV>::empty());
        }
        r
    }
}

impl AccountManager {
    /// Appends `account` with the next identifier: the record count at the
    /// time of insertion, so ids run 0, 1, 2, ... for a store that started
    /// empty. Never fails.
    pub fn add(&mut self, account: Account) -> (r: Result<(), PasswordManagerError>)
        requires
            old(self).accounts@.len() < u32::MAX,
        ensures
            r is Ok,
            final(self)@ == old(self)@.push(
                AccountV {
                    user_id: Some(old(self).accounts@.len() as u32),
                    email: account@.email,
                    username: account@.username,
                    password: account@.password,
                },
            ),
            final(self).accounts@.len() == old(self).accounts@.len() + 1,
    {
        let id: u32 = self.accounts.len() as u32;
        self.accounts.push(
            Account {
                user_id: Some(id),
                email: account.email,
                username: account.username,
                password: account.password,
            },
        );
        proof {
            assert(self@ =~= old(self)@.push(self.accounts@.last()@));
        }
        Ok(())
    }

    /// Replaces the username, email and password of the record at position
    /// `id` while its identifier stays unchanged; a missing position fails
    /// with `NoAccounts` and leaves the collection as it was.
    pub fn edit(&mut self, account: Account, id: usize) -> (r: Result<(), PasswordManagerError>)
        ensures
            id < old(self)@.len() ==> {
                &&& r is Ok
                &&& final(self)@ == old(self)@.update(
                    id as int,
                    AccountV {
                        user_id: old(self)@[id as int].user_id,
                        email: account@.email,
                        username: account@.username,
                        password: account@.password,
                    },
                )
            },
            id >= old(self)@.len() ==> {
                &&& r matches Err(e) && e is NoAccounts
                &&& final(self)@ == old(self)@
            },
    {
        if id < self.accounts.len() {
            let previous = self.accounts.remove(id);
            self.accounts.insert(
                id,
                Account {
                    user_id: previous.user_id,
                    email: account.email,
                    username: account.username,
                    password: account.password,
                },
            );
            proof {
                assert(self@ =~= old(self)@.update(id as int, self.accounts@[id as int]@));
            }
            Ok(())
        } else {
            Err(PasswordManagerError::NoAccounts("no account at that position".to_owned()))
        }
    }

    /// Deletes the record at `index`, shifting later records down by one;
    /// an out-of-range index fails with `NoAccounts` and changes nothing.
    pub fn remove(&mut self, index: usize) -> (r: Result<(), PasswordManagerError>)
        ensures
            index < old(self)@.len() ==> {
                &&& r is Ok
                &&& final(self)@ == old(self)@.remove(index as int)
            },
            index >= old(self)@.len() ==> {
                &&& r matches Err(e) && e is NoAccounts
                &&& final(self)@ == old(self)@
            },
    {
        if index < self.accounts.len() {
            let _ = self.accounts.remove(index);
            proof {
                assert(self@ =~= old(self)@.remove(index as int));
            }
            Ok(())
        } else {
            Err(PasswordManagerError::NoAccounts("no account at that position".to_owned()))
        }
    }

    /// A read-only view of the collection, in insertion order.
    pub fn list(&self) -> (r: &Vec<Account>)
        ensures
            r@ == self.accounts@,
            r@.map_values(|a: Account| a@) == self@,
    {
        &self.accounts
    }

    /// Consumes the store and files every record under its effective
    /// identifier; on equal identifiers the later record wins.
    pub fn to_hasmap(self) -> (r: HashMap<u32, Account>)
        ensures
            r@ == hashmap_of(self.accounts@),
    {
        let mut remaining = self.accounts;
        let mut filed: HashMap<u32, Account> = HashMap::new();
        let ghost orig: Seq<Account> = remaining@;
        let ghost mut processed: Seq<Account> = Seq::empty();
        proof {
            assert(orig =~= processed + remaining@);
        }
        while remaining.len() > 0
            invariant
                filed@ == hashmap_of(processed),
                orig == processed + remaining@,
            decreases remaining@.len(),
        {
            let a = remaining.remove(0);
            let ghost snapshot: Account = a;
            let key: u32 = match a.user_id {
                Some(v) => v,
                None => 0u32,
            };
            filed.insert(key, a);
            proof {
                let before = processed;
                processed = processed.push(snapshot);
                assert(processed.drop_last() =~= before);
                assert(processed.last() == snapshot);
                assert(orig =~= processed + remaining@);
            }
        }
        proof {
            assert(processed =~= orig);
        }
        filed
    }

    /// Serializes the full ordered collection to its persistence text.
    pub fn save(&self) -> (r: String)
        ensures
            r@ == ser_accounts(self@),
    {
        crate::codec::accounts_to_text(&self.accounts)
    }

    /// Replaces the whole collection with the records encoded in
    /// `json_data`; text that is not a well-formed encoding fails with
    /// `SerdeJson` and leaves the collection as it was.
    pub fn read(&mut self, json_data: &str) -> (r: Result<(), PasswordManagerError>)
        ensures
            crate::codec::p_doc(json_data@) matches Some(m) ==> r is Ok && final(self)@ == m,
            crate::codec::p_doc(json_data@) is None ==> {
                &&& r matches Err(e) && e is SerdeJson
                &&& final(self)@ == old(self)@
            },
    {
        match crate::codec::accounts_from_text(json_data) {
            Some(accs) => {
                self.accounts = accs;
                Ok(())
            },
            None => Err(PasswordManagerError::SerdeJson("not a valid account listing".to_owned())),
        }
    }

    /// Serializes the collection for flushing at shutdown, but refuses an
    /// empty store with `NoAccounts`, so that existing persisted data is
    /// never clobbered by an empty in-memory state.
    pub fn close(&self) -> (r: Result<String, PasswordManagerError>)
        ensures
            self@.len() == 0 ==> (r matches Err(e) && e is NoAccounts),
            self@.len() > 0 ==> (r matches Ok(s) && s@ == ser_accounts(self@)),
    {
        if self.accounts.len() == 0 {
            Err(PasswordManagerError::NoAccounts("no accounts to save".to_owned()))
        } else {
            Ok(self.save())
        }
    }
}

} // verus!

//! Data carried by the web service around the agent.
//!
//! The service itself — its routes, session handling and database access —
//! is an external collaborator; these are the plain values it passes
//! around: the token-exchange configuration, the authenticated user, the
//! storage properties that yield the `(uid, base)` pair handed to the
//! agent, and the map of prepared statements keyed by relative path.

use vstd::prelude::*;
use crate::paths::{FsPath, CompModel, comp_eq, lemma_parts_model_len, lemma_parts_model_index};

verus! {

/// Where and as whom the service exchanges an authorisation code.
pub struct OAuthConfig {
    pub token_url: String,
    pub user_url: String,
    pub client_id: String,
    pub client_secret: String,
}

/// The body of a token-exchange request.
pub struct OAuthBody {
    pub client_id: String,
    pub client_secret: String,
    pub code: String,
    pub accept: String,
}

impl OAuthConfig {
    /// The token-exchange body for a received authorisation code.
    pub fn token(&self, code: &str) -> (r: OAuthBody)
        ensures
            r.client_id@ == self.client_id@,
            r.client_secret@ == self.client_secret@,
            r.code@ == code@,
            r.accept@ == "application/json"@,
    {
        OAuthBody {
            client_id: self.client_id.clone(),
            client_secret: self.client_secret.clone(),
            code: code.to_owned(),
            accept: "application/json".to_owned(),
        }
    }
}

/// An authenticated user as the service stores it.
pub struct User {
    pub email: String,
    pub display: String,
}

/// The query parameters of a storage request.
pub struct SystemQueryParameterMap {
    pub command: Option<String>,
    pub args: Option<String>,
}

/// What the database yields for one user's storage: the identity to drop to
/// and the base directory to confine under.
pub struct StorageProps {
    pub display: String,
    pub email: String,
    pub uid: i32,
    pub base: String,
    pub pk: i32,
}

/// A prepared statement under its relative path.
pub ghost struct SqlEntry {
    pub path: Seq<CompModel>,
    pub sql: Seq<char>,
}

/// The last statement stored under `p`, if any.
pub open spec fn sql_lookup(s: Seq<SqlEntry>, p: Seq<CompModel>) -> Option<Seq<char>>
    decreases s.len(),
{
    if s.len() == 0 {
        None
    } else if s.last().path == p {
        Some(s.last().sql)
    } else {
        sql_lookup(s.drop_last(), p)
    }
}

/// One stored statement with its path.
pub struct SqlPair {
    pub path: FsPath,
    pub sql: String,
}

/// Statements keyed by the path they were read from.
pub struct SqlMap {
    entries: Vec<SqlPair>,
}

/// The model of one stored statement.
pub open spec fn sql_pair_model(e: SqlPair) -> SqlEntry {
    SqlEntry { path: e.path@, sql: e.sql@ }
}

impl View for SqlMap {
    type V = Seq<SqlEntry>;

    closed spec fn view(&self) -> Seq<SqlEntry> {
        self.entries@.map_values(|e: SqlPair| sql_pair_model(e))
    }
}

impl SqlMap {
    /// An empty map.
    pub fn new() -> (r: SqlMap)
        ensures
            r@ == Seq::<SqlEntry>::empty(),
    {
        let r = SqlMap { entries: Vec::new() };
        proof {
            assert(r@ =~= Seq::<SqlEntry>::empty());
        }
        r
    }

    /// Store `sql` under `path`; a later statement under the same path wins.
    pub fn insert(&mut self, path: FsPath, sql: String)
        ensures
            final(self)@ == old(self)@.push(SqlEntry { path: path@, sql: sql@ }),
            forall|p: Seq<CompModel>|
                sql_lookup(final(self)@, p) == (if p == path@ {
                    Some(sql@)
                } else {
                    sql_lookup(old(self)@, p)
                }),
    {
        let ghost before: Seq<SqlEntry> = self@;
        let ghost pv: Seq<CompModel> = path@;
        let ghost sv: Seq<char> = sql@;
        self.entries.push(SqlPair { path, sql });
        proof {
            assert(self@ =~= before.push(SqlEntry { path: pv, sql: sv }));
            assert forall|p: Seq<CompModel>|
                sql_lookup(self@, p) == (if p == pv {
                    Some(sv)
                } else {
                    sql_lookup(before, p)
                }) by {
                assert(self@.drop_last() =~= before);
                assert(self@.last() == SqlEntry { path: pv, sql: sv });
            }
        }
    }

    /// The statement stored under `path`, if any.
    pub fn get(&self, path: &FsPath) -> (r: Option<&String>)
        ensures
            match r {
                Some(s) => sql_lookup(self@, path@) == Some(s@),
                None => sql_lookup(self@, path@) is None,
            },
    {
        broadcast use lemma_parts_model_len, lemma_parts_model_index;

        let mut i: usize = self.entries.len();
        proof {
            assert(self@.len() == self.entries@.len());
            assert(self@.take(self@.len() as int) =~= self@);
        }
        while i > 0
            invariant
                i <= self.entries@.len(),
                sql_lookup(self@, path@) == sql_lookup(self@.take(i as int), path@),
            decreases i,
        {
            i = i - 1;
            proof {
                assert(self@.take(i + 1).drop_last() =~= self@.take(i as int));
                assert(self@.take(i + 1).last() == self@[i as int]);
            }
            if path_eq(&self.entries[i].path, path) {
                proof {
                    assert(self@[i as int].path == path@);
                }
                return Some(&self.entries[i].sql);
            }
            proof {
                assert(self@[i as int].path != path@);
            }
        }
        proof {
            assert(self@.take(0) =~= Seq::<SqlEntry>::empty());
        }
        None
    }
}

/// Decide equality of two paths, component by component.
pub fn path_eq(a: &FsPath, b: &FsPath) -> (r: bool)
    ensures
        r == (a@ == b@),
{
    broadcast use lemma_parts_model_len, lemma_parts_model_index;

    if a.parts.len() != b.parts.len() {
        proof {
            assert(a@.len() != b@.len());
        }
        return false;
    }
    let mut i: usize = 0;
    while i < a.parts.len()
        invariant
            i <= a.parts.len(),
            a@.len() == b@.len(),
            a@.len() == a.parts@.len(),
            b@.len() == b.parts@.len(),
            forall|j: int| 0 <= j < i ==> a@[j] == b@[j],
        decreases a.parts.len() - i,
    {
        if !comp_eq(&a.parts[i], &b.parts[i]) {
            proof {
                assert(a@[i as int] != b@[i as int]);
            }
            return false;
        }
        i = i + 1;
    }
    proof {
        assert(a@ =~= b@);
    }
    true
}

} // verus!

use vstd::prelude::*;

verus! {

/// One connected peer: its identity, display name, public key once it
/// has identified itself, and the handle of its connection.
pub struct User {
    pub id: String,
    pub name: String,
    pub public_key: Option<String>,
    pub conn: u64,
}

/// The abstract value of one user record.
pub struct UserView {
    pub name: Seq<char>,
    pub public_key: Option<Seq<char>>,
    pub conn: u64,
}

impl User {
    /// The abstract value of this record.
    pub open spec fn view(self) -> UserView {
        UserView {
            name: self.name@,
            public_key: match self.public_key {
                Some(k) => Some(k@),
                None => None,
            },
            conn: self.conn,
        }
    }

    /// A fresh record with the same contents.
    pub fn duplicate(&self) -> (r: User)
        ensures
            r@ == self@,
            r.id@ == self.id@,
    {
        User {
            id: self.id.clone(),
            name: self.name.clone(),
            public_key: match &self.public_key {
                Some(k) => Some(k.clone()),
                None => None,
            },
            conn: self.conn,
        }
    }
}

/// No two records carry the same identity.
pub open spec fn ids_unique(s: Seq<User>) -> bool {
    forall|i: int, j: int| 0 <= i < j < s.len() ==> s[i].id@ != s[j].id@
}

/// The mapping spelled by a sequence of records; a later record with the
/// same identity wins.
pub open spec fn users_map(s: Seq<User>) -> Map<Seq<char>, UserView>
    decreases s.len(),
{
    if s.len() == 0 {
        Map::empty()
    } else {
        users_map(s.drop_last()).insert(s.last().id@, s.last()@)
    }
}

/// The registry of connected peers, one record per identity.
pub struct Directory {
    pub users: Vec<User>,
}

impl View for Directory {
    type V = Map<Seq<char>, UserView>;

    open spec fn view(&self) -> Map<Seq<char>, UserView> {
        users_map(self.users@)
    }
}

pub broadcast proof fn lemma_users_map_contains(s: Seq<User>, id: Seq<char>)
    ensures
        #[trigger] users_map(s).contains_key(id) <==> exists|k: int|
            0 <= k < s.len() && s[k].id@ == id,
    decreases s.len(),
{
    if s.len() > 0 {
        lemma_users_map_contains(s.drop_last(), id);
        if users_map(s).contains_key(id) {
            if s.last().id@ != id {
                let k = choose|k: int| 0 <= k < s.len() - 1 && s.drop_last()[k].id@ == id;
                assert(s[k].id@ == id);
            }
        }
        if exists|k: int| 0 <= k < s.len() && s[k].id@ == id {
            let k = choose|k: int| 0 <= k < s.len() && s[k].id@ == id;
            if k < s.len() - 1 {
                assert(s.drop_last()[k].id@ == id);
            }
        }
    }
}

pub proof fn lemma_users_map_index(s: Seq<User>, i: int)
    requires
        ids_unique(s),
        0 <= i < s.len(),
    ensures
        users_map(s).contains_key(s[i].id@),
        users_map(s)[s[i].id@] == s[i]@,
    decreases s.len(),
{
    if i == s.len() - 1 {
    } else {
        assert(ids_unique(s.drop_last()));
        assert(s.drop_last()[i] == s[i]);
        lemma_users_map_index(s.drop_last(), i);
    }
}

pub proof fn lemma_users_map_len(s: Seq<User>)
    requires
        ids_unique(s),
    ensures
        users_map(s).dom().finite(),
        users_map(s).dom().len() == s.len(),
    decreases s.len(),
{
    broadcast use vstd::set::group_set_axioms;

    if s.len() > 0 {
        assert(ids_unique(s.drop_last()));
        lemma_users_map_len(s.drop_last());
        lemma_users_map_contains(s.drop_last(), s.last().id@);
        assert(!users_map(s.drop_last()).contains_key(s.last().id@));
        assert(users_map(s).dom() =~= users_map(s.drop_last()).dom().insert(s.last().id@));
    }
}

pub proof fn lemma_users_map_remove(s: Seq<User>, i: int)
    requires
        ids_unique(s),
        0 <= i < s.len(),
    ensures
        users_map(s.remove(i)) =~= users_map(s).remove(s[i].id@),
    decreases s.len(),
{
    if i == s.len() - 1 {
        assert(s.remove(i) =~= s.drop_last());
        lemma_users_map_contains(s.drop_last(), s[i].id@);
        assert(!users_map(s.drop_last()).contains_key(s[i].id@));
        assert(users_map(s.drop_last()).remove(s[i].id@) =~= users_map(s.drop_last()));
    } else {
        assert(ids_unique(s.drop_last()));
        assert(s.drop_last()[i] == s[i]);
        lemma_users_map_remove(s.drop_last(), i);
        assert(s.remove(i).drop_last() =~= s.drop_last().remove(i));
        assert(s.remove(i).last() == s.last());
    }
}

impl Directory {
    /// No two records carry the same identity.
    pub open spec fn wf(self) -> bool {
        ids_unique(self.users@)
    }

    /// An empty directory.
    pub fn new() -> (r: Directory)
        ensures
            r@ == Map::<Seq<char>, UserView>::empty(),
            r.wf(),
            r.users@.len() == 0,
    {
        Directory { users: Vec::new() }
    }

    /// Index of the record that carries `id`, if any.
    fn find_index(&self, id: &String) -> (r: Option<usize>)
        ensures
            (match r {
                Some(k) => k < self.users@.len() && self.users@[k as int].id@ == id@,
                None => forall|k: int| 0 <= k < self.users@.len() ==> self.users@[k].id@ != id@,
            }),
    {
        let mut k: usize = 0;
        while k < self.users.len()
            invariant
                k <= self.users@.len(),
                forall|j: int| 0 <= j < k ==> self.users@[j].id@ != id@,
            decreases self.users@.len() - k,
        {
            if self.users[k].id.eq(id) {
                return Some(k);
            }
            k += 1;
        }
        None
    }

    /// Whether `id` is present.
    pub fn contains(&self, id: &String) -> (r: bool)
        ensures
            r == self@.contains_key(id@),
    {
        proof {
            lemma_users_map_contains(self.users@, id@);
        }
        self.find_index(id).is_some()
    }

    /// The number of live records.
    pub fn len(&self) -> (n: usize)
        requires
            self.wf(),
        ensures
            n == self@.dom().len(),
    {
        proof {
            lemma_users_map_len(self.users@);
        }
        self.users.len()
    }

    /// The record that carries `id`, if any.
    pub fn get<'a>(&'a self, id: &String) -> (r: Option<&'a User>)
        requires
            self.wf(),
        ensures
            (match r {
                Some(u) => self@.contains_key(id@) && u@ == self@[id@] && u.id@ == id@,
                None => !self@.contains_key(id@),
            }),
    {
        proof {
            lemma_users_map_contains(self.users@, id@);
        }
        match self.find_index(id) {
            Some(k) => {
                proof {
                    lemma_users_map_index(self.users@, k as int);
                }
                Some(&self.users[k])
            },
            None => None,
        }
    }

    /// Insert a fresh anonymous record for `id`, overwriting any record
    /// already held under the same identity.
    pub fn join(&mut self, id: &String, conn: u64, name: &String)
        requires
            old(self).wf(),
        ensures
            final(self)@ == old(self)@.insert(
                id@,
                UserView { name: name@, public_key: None, conn },
            ),
            final(self).wf(),
    {
        let user = User { id: id.clone(), name: name.clone(), public_key: None, conn };
        match self.find_index(id) {
            Some(k) => {
                proof {
                    lemma_users_map_remove(self.users@, k as int);
                }
                let ghost s0 = self.users@;
                self.users.remove(k);
                proof {
                    assert(ids_unique(self.users@));
                    lemma_users_map_contains(self.users@, id@);
                }
                self.users.push(user);
                proof {
                    assert(self.users@.drop_last() =~= s0.remove(k as int));
                    assert(final(self)@ =~= old(self)@.insert(
                        id@,
                        UserView { name: name@, public_key: None, conn },
                    ));
                    assert(ids_unique(self.users@));
                }
            },
            None => {
                self.users.push(user);
                proof {
                    assert(self.users@.drop_last() =~= old(self).users@);
                    assert(ids_unique(self.users@));
                }
            },
        }
    }

    /// Promote the record under `id` to identified: set its display name
    /// and public key; a no-op when `id` is absent.
    pub fn set_identity(&mut self, id: &String, name: &String, public_key: &String)
        requires
            old(self).wf(),
        ensures
            old(self)@.contains_key(id@) ==> final(self)@ == old(self)@.insert(
                id@,
                UserView { name: name@, public_key: Some(public_key@), conn: old(self)@[id@].conn },
            ),
            !old(self)@.contains_key(id@) ==> final(self)@ == old(self)@,
            final(self).wf(),
    {
        proof {
            lemma_users_map_contains(self.users@, id@);
        }
        match self.find_index(id) {
            Some(k) => {
                proof {
                    lemma_users_map_index(self.users@, k as int);
                    lemma_users_map_remove(self.users@, k as int);
                }
                let conn = self.users[k].conn;
                let user = User {
                    id: id.clone(),
                    name: name.clone(),
                    public_key: Some(public_key.clone()),
                    conn,
                };
                let ghost s0 = self.users@;
                self.users.remove(k);
                proof {
                    assert(ids_unique(self.users@));
                    lemma_users_map_contains(self.users@, id@);
                }
                self.users.push(user);
                proof {
                    assert(self.users@.drop_last() =~= s0.remove(k as int));
                    assert(final(self)@ =~= old(self)@.insert(
                        id@,
                        UserView {
                            name: name@,
                            public_key: Some(public_key@),
                            conn: old(self)@[id@].conn,
                        },
                    ));
                    assert(ids_unique(self.users@));
                }
            },
            None => {},
        }
    }

    /// Remove the record under `id`; a no-op when `id` is absent.
    pub fn leave(&mut self, id: &String)
        requires
            old(self).wf(),
        ensures
            final(self)@ == old(self)@.remove(id@),
            final(self).wf(),
    {
        proof {
            lemma_users_map_contains(self.users@, id@);
        }
        match self.find_index(id) {
            Some(k) => {
                proof {
                    lemma_users_map_remove(self.users@, k as int);
                }
                self.users.remove(k);
                proof {
                    assert(ids_unique(self.users@));
                }
            },
            None => {
                proof {
                    assert(final(self)@ =~= old(self)@.remove(id@));
                }
            },
        }
    }
}

/// Law: joining an identity that is not yet present and then leaving it
/// restores the directory as it was; from the empty directory, joining
/// and leaving the same identity restores the empty directory.
pub proof fn lemma_join_then_leave(m: Map<Seq<char>, UserView>, id: Seq<char>, u: UserView)
    requires
        !m.contains_key(id),
    ensures
        m.insert(id, u).remove(id) == m,
{
    assert(m.insert(id, u).remove(id) =~= m);
}

/// Law: two joins under distinct identities land in the directory in
/// either order with the same outcome, both are present afterwards, and
/// none is lost: two fresh identities grow the directory by exactly two.
pub proof fn lemma_joins_commute(
    m: Map<Seq<char>, UserView>,
    id1: Seq<char>,
    u1: UserView,
    id2: Seq<char>,
    u2: UserView,
)
    requires
        id1 != id2,
    ensures
        m.insert(id1, u1).insert(id2, u2) == m.insert(id2, u2).insert(id1, u1),
        m.insert(id1, u1).insert(id2, u2).contains_key(id1),
        m.insert(id1, u1).insert(id2, u2).contains_key(id2),
        m.dom().finite() && !m.contains_key(id1) && !m.contains_key(id2) ==> m.insert(
            id1,
            u1,
        ).insert(id2, u2).dom().len() == m.dom().len() + 2,
{
    broadcast use vstd::set::group_set_axioms;

    assert(m.insert(id1, u1).insert(id2, u2) =~= m.insert(id2, u2).insert(id1, u1));
    if m.dom().finite() && !m.contains_key(id1) && !m.contains_key(id2) {
        assert(m.insert(id1, u1).dom() =~= m.dom().insert(id1));
        assert(m.insert(id1, u1).insert(id2, u2).dom() =~= m.dom().insert(id1).insert(id2));
    }
}

} // verus!

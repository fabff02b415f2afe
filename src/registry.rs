use std::collections::BTreeMap;
use vstd::prelude::*;
use vstd::std_specs::cmp::OrdSpec;
use vstd::std_specs::iter::IteratorSpec;

verus! {

/// Stable numeric identifier of a tunnel, assigned on arrival.
pub type TunnelId = u64;

/// Identity string that authentication gives a tunnel.
pub type TunnelName = String;

/// What the registry knows of one tunnel.
#[derive(Debug, Clone)]
pub struct TunnelRecord<T> {
    pub id: TunnelId,
    pub name: Option<TunnelName>,
    pub tunnel: T,
}

/// The characters of an optional name.
pub open spec fn name_view(name: Option<TunnelName>) -> Option<Seq<char>> {
    match name {
        Some(n) => Some(n@),
        None => None,
    }
}

impl<T> TunnelRecord<T> {
    /// The characters of the record's name, if it has one.
    pub open spec fn name_seq(&self) -> Option<Seq<char>> {
        name_view(self.name)
    }
}

/// Why a tunnel could not be registered.
#[derive(Debug, Clone, PartialEq, Eq)]
pub enum TunnelRegistrationError {
    IdOccupied(TunnelId),
    NameOccupied(TunnelName),
    ApplicationError(String),
}

/// Why a tunnel could not be given a name.
#[derive(Debug, Clone, PartialEq, Eq)]
pub enum TunnelNamingError {
    NameOccupied(TunnelName),
    TunnelNotRegistered(TunnelId),
    /// The tunnel already carries another name; a name is given once.
    AlreadyNamed(TunnelId),
    ApplicationError(String),
}

/// The registry's contents: each key maps to the record that carries that id.
pub type Records<T> = Map<TunnelId, TunnelRecord<T>>;

/// Some record other than the one under `except` carries the name `n`.
pub open spec fn name_taken<T>(m: Records<T>, n: Seq<char>, except: TunnelId) -> bool {
    exists|k: TunnelId| #[trigger] m.contains_key(k) && k != except && m[k].name_seq() == Some(n)
}

/// Every record is filed under its own id, and no two records carry the same name.
pub open spec fn records_consistent<T>(m: Records<T>) -> bool {
    &&& forall|k: TunnelId| #[trigger] m.contains_key(k) ==> m[k].id == k
    &&& forall|a: TunnelId, b: TunnelId|
        #![trigger m[a].name_seq(), m[b].name_seq()]
        m.contains_key(a) && m.contains_key(b) && a != b && m[a].name_seq() is Some
            ==> m[a].name_seq() != m[b].name_seq()
}

/// The record that registration files under `id`.
pub open spec fn fresh_record<T>(id: TunnelId, tunnel: T) -> TunnelRecord<T> {
    TunnelRecord { id, name: None, tunnel }
}

/// Registration of `id` is accepted exactly when no live record holds that id.
pub open spec fn register_accepted<T>(m: Records<T>, id: TunnelId) -> bool {
    !m.contains_key(id)
}

/// Naming `id` as `n` is accepted exactly when `id` is live and unnamed (or named `n`
/// already), and no other record carries `n`.
pub open spec fn naming_accepted<T>(m: Records<T>, id: TunnelId, n: Seq<char>) -> bool {
    m.contains_key(id) && !name_taken(m, n, id) && !named_otherwise(m, id, n)
}

/// The record under `id` already carries a name other than `n`.
pub open spec fn named_otherwise<T>(m: Records<T>, id: TunnelId, n: Seq<char>) -> bool {
    m.contains_key(id) && m[id].name_seq() is Some && m[id].name_seq() != Some(n)
}

/// The registry after `id` is registered with `tunnel`, where that is accepted.
pub open spec fn registered<T>(m: Records<T>, id: TunnelId, tunnel: T) -> Records<T> {
    m.insert(id, fresh_record(id, tunnel))
}

/// The registry after the record under `id` is given the name `n`.
pub open spec fn renamed<T>(m: Records<T>, id: TunnelId, n: TunnelName) -> Records<T> {
    m.insert(id, TunnelRecord { id: m[id].id, name: Some(n), tunnel: m[id].tunnel })
}

/// The registry after `id` is deregistered.
pub open spec fn deregistered<T>(m: Records<T>, id: TunnelId) -> Records<T> {
    m.remove(id)
}

/// `r` is a copy of `orig`: same id and name, and a clone of its tunnel handle.
pub open spec fn copy_of<T: Clone>(r: TunnelRecord<T>, orig: TunnelRecord<T>) -> bool {
    &&& r.id == orig.id
    &&& r.name_seq() == orig.name_seq()
    &&& cloned(orig.tunnel, r.tunnel)
}

fn copy_name(name: &Option<TunnelName>) -> (r: Option<TunnelName>)
    ensures
        name_view(r) == name_view(*name),
{
    match name {
        Some(n) => Some(n.clone()),
        None => None,
    }
}

fn copy_record<T: Clone>(rec: &TunnelRecord<T>) -> (r: TunnelRecord<T>)
    ensures
        copy_of(r, *rec),
{
    TunnelRecord { id: rec.id, name: copy_name(&rec.name), tunnel: rec.tunnel.clone() }
}

/// A registry of live tunnels kept in memory, ordered by id.
pub struct InMemoryTunnelRegistry<T> {
    tunnels: BTreeMap<TunnelId, TunnelRecord<T>>,
}

impl<T> View for InMemoryTunnelRegistry<T> {
    type V = Records<T>;

    closed spec fn view(&self) -> Records<T> {
        self.tunnels@
    }
}

impl<T: Clone> InMemoryTunnelRegistry<T> {
    pub open spec fn wf(&self) -> bool {
        records_consistent(self@)
    }

    pub fn new() -> (r: Self)
        ensures
            r.wf(),
            r@ == Records::<T>::empty(),
    {
        InMemoryTunnelRegistry { tunnels: BTreeMap::new() }
    }

    /// The record filed under `tunnel_id`, if any.
    pub fn lookup_by_id(&self, tunnel_id: TunnelId) -> (r: Option<TunnelRecord<T>>)
        ensures
            r is Some <==> self@.contains_key(tunnel_id),
            r is Some ==> copy_of(r->0, self@[tunnel_id]),
    {
        match self.tunnels.get(&tunnel_id) {
            Some(rec) => Some(copy_record(rec)),
            None => None,
        }
    }

    /// The id of a record named `name`, skipping the record under `except`.
    fn find_name_holder(&self, name: &TunnelName, except: Option<TunnelId>) -> (r: Option<
        TunnelId,
    >)
        ensures
            r is Some <==> exists|k: TunnelId| #[trigger]
                self@.contains_key(k) && Some(k) != except && self@[k].name_seq() == Some(name@),
            r is Some ==> self@.contains_key(r->0) && Some(r->0) != except && self@[r->0].name_seq()
                == Some(name@),
    {
        let ghost m = self@;
        let keys = self.tunnels.keys();
        let ghost all = keys;
        assert(all.remaining().unref().to_set() == m.dom());
        for k in it: keys
            invariant
                m == self.tunnels@,
                it.seq() == all.remaining(),
                all.remaining().unref().to_set() == m.dom(),
                forall|k2: TunnelId|
                    #[trigger] m.contains_key(k2) && Some(k2) != except && m[k2].name_seq() == Some(
                        name@,
                    ) ==> exists|j: int| it.index() <= j < it.seq().len() && *it.seq()[j] == k2,
        {
            proof {
                if it.index() == 0 {
                    assert forall|k2: TunnelId|
                        #[trigger] m.contains_key(k2) && Some(k2) != except && m[k2].name_seq()
                            == Some(name@) implies exists|j: int|
                        0 <= j < it.seq().len() && *it.seq()[j] == k2 by {
                        assert(all.remaining().unref().to_set().contains(k2));
                        let j = choose|j: int| 0 <= j < all.remaining().unref().len() && all.remaining().unref()[j] == k2;
                        assert(*it.seq()[j] == k2);
                    }
                }
            }
            let ghost idx = it.index();
            assert(*k == *it.seq()[idx]);
            let skip = match except {
                Some(e) => *k == e,
                None => false,
            };
            if !skip {
                match self.tunnels.get(k) {
                    Some(rec) => {
                        match &rec.name {
                            Some(n) => {
                                if *n == *name {
                                    return Some(*k);
                                }
                            },
                            None => {},
                        }
                    },
                    None => {},
                }
            }
            proof {
                assert forall|k2: TunnelId|
                    #[trigger] m.contains_key(k2) && Some(k2) != except && m[k2].name_seq() == Some(
                        name@,
                    ) implies exists|j: int| idx + 1 <= j < it.seq().len() && *it.seq()[j] == k2 by {
                    let j = choose|j: int| idx <= j < it.seq().len() && *it.seq()[j] == k2;
                    assert(j != idx);
                }
            }
        }
        None
    }

    /// The record named `tunnel_name`, if any.
    pub fn lookup_by_name(&self, tunnel_name: TunnelName) -> (r: Option<TunnelRecord<T>>)
        requires
            self.wf(),
        ensures
            r is Some <==> exists|k: TunnelId| #[trigger]
                self@.contains_key(k) && self@[k].name_seq() == Some(tunnel_name@),
            r is Some ==> self@.contains_key(r->0.id) && copy_of(r->0, self@[r->0.id])
                && r->0.name_seq() == Some(tunnel_name@),
    {
        match self.find_name_holder(&tunnel_name, None) {
            Some(k) => self.lookup_by_id(k),
            None => None,
        }
    }

    /// Gives the record under `tunnel_id` the name `name`, unless the id is absent, the
    /// record already carries another name, or another record carries this one.
    pub fn name_tunnel(&mut self, tunnel_id: TunnelId, name: TunnelName) -> (r: Result<
        (),
        TunnelNamingError,
    >)
        requires
            old(self).wf(),
        ensures
            final(self).wf(),
            !old(self)@.contains_key(tunnel_id) ==> r == Err::<(), _>(
                TunnelNamingError::TunnelNotRegistered(tunnel_id),
            ),
            named_otherwise(old(self)@, tunnel_id, name@) ==> r == Err::<(), _>(
                TunnelNamingError::AlreadyNamed(tunnel_id),
            ),
            old(self)@.contains_key(tunnel_id) && !named_otherwise(old(self)@, tunnel_id, name@)
                && name_taken(old(self)@, name@, tunnel_id) ==> r == Err::<(), _>(
                TunnelNamingError::NameOccupied(name),
            ),
            r is Ok <==> naming_accepted(old(self)@, tunnel_id, name@),
            r is Ok ==> final(self)@ == renamed(old(self)@, tunnel_id, name),
            r is Err ==> final(self)@ == old(self)@,
    {
        if !self.tunnels.contains_key(&tunnel_id) {
            return Err(TunnelNamingError::TunnelNotRegistered(tunnel_id));
        }
        match &self.tunnels.get(&tunnel_id).unwrap().name {
            Some(current) => {
                if *current != name {
                    return Err(TunnelNamingError::AlreadyNamed(tunnel_id));
                }
            },
            None => {},
        }
        if self.find_name_holder(&name, Some(tunnel_id)).is_some() {
            return Err(TunnelNamingError::NameOccupied(name));
        }
        let ghost m = self@;
        let ghost n = name;
        let mut rec = self.tunnels.remove(&tunnel_id).unwrap();
        rec.name = Some(name);
        self.tunnels.insert(tunnel_id, rec);
        assert(self@ =~= renamed(m, tunnel_id, n));
        Ok(())
    }

    /// The registered ids, in increasing order.
    pub fn keys(&self) -> (r: Vec<TunnelId>)
        ensures
            r@.to_set() == self@.dom(),
            r@.len() == self@.dom().len(),
            forall|i: int, j: int| 0 <= i < j < r@.len() ==> r@[i] < r@[j],
    {
        let mut out: Vec<TunnelId> = Vec::new();
        let keys = self.tunnels.keys();
        let ghost all = keys;
        for k in it: keys
            invariant
                it.seq() == all.remaining(),
                out@ == it.seq().take(it.index()).unref(),
        {
            let ghost idx = it.index();
            out.push(*k);
            assert(out@ =~= it.seq().take(idx + 1).unref());
        }
        assert(out@ =~= all.remaining().unref());
        assert(out@.to_set() =~= self@.dom());
        proof {
            assert(vstd::laws_cmp::obeys_cmp::<u64>());
            assert(vstd::laws_cmp::obeys_cmp::<&u64>());
            assert(vstd::std_specs::btree::key_obeys_cmp_spec::<u64>());
            assert(all == vstd::std_specs::btree::spec_keys_iter(&self.tunnels));
            assert(vstd::std_specs::btree::increasing_seq(all.remaining()));
            vstd::std_specs::btree::axiom_increasing_seq_meaning(all.remaining());
            assert forall|i: int, j: int| 0 <= i < j < out@.len() implies out@[i] < out@[j] by {
                assert(out@.len() == all.remaining().len());
                assert(OrdSpec::cmp_spec(&all.remaining()[i], &all.remaining()[j]) is Less);
            }
        }
        out
    }

    /// Files a new, unnamed record under `tunnel_id`, unless that id is taken.
    pub fn register_tunnel(&mut self, tunnel_id: TunnelId, tunnel: T) -> (r: Result<
        (),
        TunnelRegistrationError,
    >)
        requires
            old(self).wf(),
        ensures
            final(self).wf(),
            r is Ok <==> register_accepted(old(self)@, tunnel_id),
            r is Err ==> r == Err::<(), _>(TunnelRegistrationError::IdOccupied(tunnel_id))
                && final(self)@ == old(self)@,
            r is Ok ==> final(self)@ == registered(old(self)@, tunnel_id, tunnel),
    {
        if self.tunnels.contains_key(&tunnel_id) {
            return Err(TunnelRegistrationError::IdOccupied(tunnel_id));
        }
        self.tunnels.insert(tunnel_id, TunnelRecord { id: tunnel_id, name: None, tunnel });
        Ok(())
    }

    /// Removes the record filed under `tunnel_id` and hands it back.
    pub fn deregister_tunnel(&mut self, tunnel_id: TunnelId) -> (r: Result<TunnelRecord<T>, ()>)
        requires
            old(self).wf(),
        ensures
            final(self).wf(),
            r is Ok <==> old(self)@.contains_key(tunnel_id),
            r is Ok ==> r->Ok_0 == old(self)@[tunnel_id],
            final(self)@ == deregistered(old(self)@, tunnel_id),
    {
        match self.tunnels.remove(&tunnel_id) {
            Some(rec) => Ok(rec),
            None => Err(()),
        }
    }

    /// The largest registered id, if any.
    pub fn max_key(&self) -> (r: Option<TunnelId>)
        ensures
            r is None <==> self@.dom().is_empty(),
            r is Some ==> self@.contains_key(r->0),
            r is Some ==> forall|k: TunnelId| #[trigger] self@.contains_key(k) ==> k <= r->0,
    {
        let ids = self.keys();
        let mut best: Option<TunnelId> = None;
        for i in 0..ids.len()
            invariant
                ids@.to_set() == self@.dom(),
                best is None <==> i == 0,
                best is Some ==> ids@.take(i as int).contains(best->0),
                best is Some ==> forall|j: int| 0 <= j < i ==> ids@[j] <= best->0,
        {
            let k = ids[i];
            best = match best {
                Some(b) => if k > b { Some(k) } else { Some(b) },
                None => Some(k),
            };
            assert(ids@.take(i + 1)[i as int] == k);
        }
        proof {
            if best is Some {
                assert(ids@.take(ids@.len() as int) =~= ids@);
                assert(ids@.to_set().contains(best->0));
                assert forall|k: TunnelId| #[trigger] self@.contains_key(k) implies k <= best->0 by {
                    assert(ids@.to_set().contains(k));
                }
            } else {
                assert(ids@.len() == 0);
                assert(self@.dom() =~= Set::<TunnelId>::empty());
            }
        }
        best
    }
}

/// Registration, naming and deregistration, each where accepted, keep every record
/// under its own id and every name on at most one record.
pub proof fn lemma_operations_keep_records_distinct<T>(
    m: Records<T>,
    id: TunnelId,
    name: TunnelName,
    tunnel: T,
)
    requires
        records_consistent(m),
    ensures
        register_accepted(m, id) ==> records_consistent(registered(m, id, tunnel)),
        naming_accepted(m, id, name@) ==> records_consistent(renamed(m, id, name)),
        records_consistent(deregistered(m, id)),
{
    if naming_accepted(m, id, name@) {
        let m2 = renamed(m, id, name);
        assert forall|a: TunnelId, b: TunnelId|
            #![trigger m2[a].name_seq(), m2[b].name_seq()]
            m2.contains_key(a) && m2.contains_key(b) && a != b && m2[a].name_seq() is Some
                implies m2[a].name_seq() != m2[b].name_seq() by {
            if a == id {
                assert(m.contains_key(b) && b != id);
            } else if b == id {
                assert(m.contains_key(a) && a != id);
            }
        }
    }
}

/// A live record is never visible under an id whose registration is still to be accepted,
/// nor under an id once it has been deregistered.
pub proof fn lemma_absent_before_register_and_after_deregister<T>(m: Records<T>, id: TunnelId)
    ensures
        register_accepted(m, id) ==> !m.contains_key(id),
        !deregistered(m, id).contains_key(id),
{
}

/// Registering an id, deregistering it, and registering it again is accepted each time,
/// and the deregistration leaves the registry as it was before.
pub proof fn lemma_id_reusable_after_deregister<T>(m: Records<T>, id: TunnelId, tunnel: T)
    requires
        register_accepted(m, id),
    ensures
        deregistered(registered(m, id, tunnel), id) == m,
        register_accepted(deregistered(registered(m, id, tunnel), id), id),
{
    assert(deregistered(registered(m, id, tunnel), id) =~= m);
}

/// A record's name is given once: naming a record that already carries a name is accepted
/// only with that same name, and then leaves the name as it was.
pub proof fn lemma_name_given_once<T>(m: Records<T>, id: TunnelId, name: TunnelName)
    requires
        m.contains_key(id),
        m[id].name_seq() is Some,
    ensures
        naming_accepted(m, id, name@) ==> renamed(m, id, name)[id].name_seq() == m[id].name_seq(),
        m[id].name_seq() != Some(name@) ==> !naming_accepted(m, id, name@),
{
}

} // verus!

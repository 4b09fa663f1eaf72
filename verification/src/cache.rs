//! The durable record store: cycle descriptions keyed by 128-bit
//! identifiers, kept in one tree of an embedded transactional key-value
//! engine. Every mutation is written through to disk before it returns.

use vstd::prelude::*;

use crate::codec::{
    container_encodable, dec_container, dec_desc_full, decode_container, desc_encodable,
    enc_container, encode_container, encode_description, lemma_enc_dec_desc, pair_encodable,
    pairs_view,
};
use crate::description::{Description, DescriptionV};
use crate::ident::Id;

verus! {

/// What can go wrong in the store. `Io` is any failure of the engine or the
/// disk; `Corrupt` an import container that does not decode; `NoFreeId` the
/// (practically impossible) failure to draw an unused identifier.
#[derive(Clone, Copy, PartialEq, Eq, Structural, Debug)]
pub enum StoreError {
    Io,
    Corrupt,
    NoFreeId,
}

/// sled's database handle, declared so values of it can stand in fields.
#[verifier::external_type_specification]
#[verifier::external_body]
pub struct ExDb(sled::Db);

/// sled's key-value tree, declared so values of it can stand in fields.
#[verifier::external_type_specification]
#[verifier::external_body]
pub struct ExTree(sled::Tree);

/// sled's error type, declared so wrappers can hand it back.
#[verifier::external_type_specification]
#[verifier::external_body]
pub struct ExSledError(sled::Error);

/// What a sled tree holds: a map from key bytes to value bytes.
pub uninterp spec fn tree_contents(t: sled::Tree) -> Map<Seq<u8>, Seq<u8>>;

/// Every engine failure surfaces as an I/O error of the store.
fn io_error(e: sled::Error) -> (r: StoreError)
    ensures
        r is Io,
{
    let _ = e;
    StoreError::Io
}

/// Relies on sled's `open`: opens or creates the on-disk structure at the
/// given path. What the tree then holds is whatever the disk held.
#[verifier::external_body]
fn sled_open(path: &str) -> (r: Result<sled::Db, sled::Error>)
{
    sled::open(path)
}

/// Relies on sled's `Db::open_tree`: opens or creates the named keyspace of
/// the database. What the tree holds is whatever the disk held.
#[verifier::external_body]
fn sled_open_tree(db: &sled::Db) -> (r: Result<sled::Tree, sled::Error>)
{
    db.open_tree("cycles")
}

/// Relies on sled's `Tree::insert`: binds the key to the value; on success
/// the tree holds exactly what it held with this one binding added.
#[verifier::external_body]
fn tree_insert(t: &mut sled::Tree, key: &[u8], value: &[u8]) -> (r: Result<(), sled::Error>)
    ensures
        r is Ok ==> tree_contents(*final(t)) == tree_contents(*old(t)).insert(key@, value@),
{
    match t.insert(key, value) {
        Ok(_) => Ok(()),
        Err(e) => Err(e),
    }
}

/// Relies on sled's `Tree::remove`: unbinds the key; on success the tree
/// holds exactly what it held without that key, a no-op when it was absent.
#[verifier::external_body]
fn tree_remove(t: &mut sled::Tree, key: &[u8]) -> (r: Result<(), sled::Error>)
    ensures
        r is Ok ==> tree_contents(*final(t)) == tree_contents(*old(t)).remove(key@),
{
    match t.remove(key) {
        Ok(_) => Ok(()),
        Err(e) => Err(e),
    }
}

/// Relies on sled's `Tree::contains_key`: whether the key is bound.
#[verifier::external_body]
fn tree_contains(t: &sled::Tree, key: &[u8]) -> (r: Result<bool, sled::Error>)
    ensures
        r matches Ok(b) ==> b == tree_contents(*t).dom().contains(key@),
{
    t.contains_key(key)
}

/// Relies on sled's `Tree::flush`: blocks until all writes so far are
/// durable on disk. What the tree holds is untouched.
#[verifier::external_body]
fn tree_flush(t: &sled::Tree) -> (r: Result<(), sled::Error>)
{
    match t.flush() {
        Ok(_) => Ok(()),
        Err(e) => Err(e),
    }
}

/// Relies on sled's `Tree::iter`: walks every binding exactly once, so the
/// pairs returned carry each key of the tree once, with its value.
#[verifier::external_body]
fn tree_entries(t: &sled::Tree) -> (r: Result<Vec<(Vec<u8>, Vec<u8>)>, sled::Error>)
    ensures
        r matches Ok(v) ==> {
            &&& forall|i: int|
                0 <= i < v@.len() ==> tree_contents(*t).contains_pair(
                    #[trigger] v@[i].0@,
                    v@[i].1@,
                )
            &&& forall|i: int, j: int| 0 <= i < j < v@.len() ==> v@[i].0@ != v@[j].0@
            &&& forall|k: Seq<u8>|
                #[trigger] tree_contents(*t).dom().contains(k) ==> exists|i: int|
                    0 <= i < v@.len() && (#[trigger] v@[i].0@) == k
        },
{
    let mut out: Vec<(Vec<u8>, Vec<u8>)> = Vec::new();
    for item in t.iter() {
        match item {
            Ok((k, v)) => out.push((k.to_vec(), v.to_vec())),
            Err(e) => {
                return Err(e);
            },
        }
    }
    Ok(out)
}

/// The records a tree holds: every sixteen-byte key whose value decodes as
/// a description, with the decoded value. Any other binding is not a record.
pub open spec fn entries_map(m: Map<Seq<u8>, Seq<u8>>) -> Map<Seq<u8>, DescriptionV> {
    Map::new(
        |k: Seq<u8>| m.dom().contains(k) && k.len() == 16 && dec_desc_full(m[k]) is Some,
        |k: Seq<u8>| dec_desc_full(m[k])->0,
    )
}

/// Binding a record in the tree binds exactly that record in the view.
proof fn lemma_entries_map_insert(
    m: Map<Seq<u8>, Seq<u8>>,
    k: Seq<u8>,
    bytes: Seq<u8>,
    d: DescriptionV,
)
    requires
        k.len() == 16,
        dec_desc_full(bytes) == Some(d),
    ensures
        entries_map(m.insert(k, bytes)) == entries_map(m).insert(k, d),
{
    assert(entries_map(m.insert(k, bytes)) =~= entries_map(m).insert(k, d));
}

/// Unbinding a key in the tree removes exactly that record from the view.
proof fn lemma_entries_map_remove(m: Map<Seq<u8>, Seq<u8>>, k: Seq<u8>)
    ensures
        entries_map(m.remove(k)) == entries_map(m).remove(k),
{
    assert(entries_map(m.remove(k)) =~= entries_map(m).remove(k));
}

/// The durable record store. The handle is opened once per process and held
/// for its lifetime; the view of a store is the map from identifier bytes
/// to the description each names.
pub struct Database {
    db: sled::Db,
    cycles: sled::Tree,
}

impl View for Database {
    type V = Map<Seq<u8>, DescriptionV>;

    closed spec fn view(&self) -> Map<Seq<u8>, DescriptionV> {
        entries_map(tree_contents(self.cycles))
    }
}

impl Database {
    /// Opens or creates the store at `path`. The records are whatever the
    /// on-disk structure holds; an unusable path or unreadable structure is
    /// an I/O error.
    pub fn new(path: &str) -> (r: Result<Database, StoreError>)
        ensures
            r matches Err(e) ==> e is Io,
    {
        let db = match sled_open(path) {
            Ok(db) => db,
            Err(e) => {
                return Err(io_error(e));
            },
        };
        let cycles = match sled_open_tree(&db) {
            Ok(t) => t,
            Err(e) => {
                return Err(io_error(e));
            },
        };
        Ok(Database { db, cycles })
    }

    /// Binds `id` to `description`, creating or overwriting: an upsert, also
    /// for identifiers never appended. On success the store holds exactly
    /// the old records plus this binding, durably.
    pub fn update(&mut self, id: &Id, description: &Description) -> (r: Result<(), StoreError>)
        requires
            id@.len() == 16,
        ensures
            r is Ok ==> final(self)@ == old(self)@.insert(id@, description@),
            r matches Err(e) ==> e is Io,
    {
        let bytes = encode_description(description);
        proof {
            lemma_enc_dec_desc(description@);
        }
        match tree_insert(&mut self.cycles, id.as_bytes().as_slice(), bytes.as_slice()) {
            Ok(()) => {},
            Err(e) => {
                return Err(io_error(e));
            },
        }
        proof {
            lemma_entries_map_insert(
                tree_contents(old(self).cycles),
                id@,
                bytes@,
                description@,
            );
        }
        match tree_flush(&self.cycles) {
            Ok(()) => Ok(()),
            Err(e) => Err(io_error(e)),
        }
    }

    /// Deletes the record at `id` if present; deleting an absent identifier
    /// succeeds and is a no-op. On success the store holds exactly the old
    /// records without this one, durably.
    pub fn remove(&mut self, id: &Id) -> (r: Result<(), StoreError>)
        ensures
            r is Ok ==> final(self)@ == old(self)@.remove(id@),
            r matches Err(e) ==> e is Io,
    {
        match tree_remove(&mut self.cycles, id.as_bytes().as_slice()) {
            Ok(()) => {},
            Err(e) => {
                return Err(io_error(e));
            },
        }
        proof {
            lemma_entries_map_remove(tree_contents(old(self).cycles), id@);
        }
        match tree_flush(&self.cycles) {
            Ok(()) => Ok(()),
            Err(e) => Err(io_error(e)),
        }
    }

    /// Draws random identifiers until one not bound in the tree is found,
    /// giving up after `attempts` tries.
    fn fresh_unused_id(&self, attempts: u64) -> (r: Result<Id, StoreError>)
        ensures
            r matches Ok(id) ==> id@.len() == 16 && !self@.dom().contains(id@),
            r matches Err(e) ==> (e is Io || e is NoFreeId),
        decreases attempts,
    {
        if attempts == 0 {
            return Err(StoreError::NoFreeId);
        }
        let id = Id::fresh();
        match tree_contains(&self.cycles, id.as_bytes().as_slice()) {
            Ok(true) => self.fresh_unused_id(attempts - 1),
            Ok(false) => Ok(id),
            Err(e) => Err(io_error(e)),
        }
    }

    /// Appends a fresh record: draws a random identifier not already
    /// present — never one returned before on the same records — binds the
    /// description to it, and returns it.
    pub fn append(&mut self, description: &Description) -> (r: Result<Id, StoreError>)
        ensures
            r matches Ok(id) ==> {
                &&& id@.len() == 16
                &&& !old(self)@.dom().contains(id@)
                &&& final(self)@ == old(self)@.insert(id@, description@)
            },
            r matches Err(e) ==> (e is Io || e is NoFreeId),
    {
        let id = match self.fresh_unused_id(64) {
            Ok(id) => id,
            Err(e) => {
                return Err(e);
            },
        };
        match self.update(&id, description) {
            Ok(()) => Ok(id),
            Err(e) => Err(e),
        }
    }

    /// Every current record, one pair per identifier, in engine order — not
    /// insertion order. A binding whose key is not sixteen bytes or whose
    /// value does not decode is not a record and is skipped.
    pub fn entries(&self) -> (r: Result<Vec<(Id, Description)>, StoreError>)
        ensures
            r matches Ok(v) ==> entry_list_matches(v@, self@),
            r matches Err(e) ==> e is Io,
    {
        let raw = match tree_entries(&self.cycles) {
            Ok(v) => v,
            Err(e) => {
                return Err(io_error(e));
            },
        };
        let recs = collect_records(Ghost(tree_contents(self.cycles)), raw);
        Ok(recs)
    }

    /// The full current entry set as one binary container: an ordered
    /// sequence of (identifier, description) pairs, in entry order.
    pub fn export_bytes(&self) -> (r: Result<Vec<u8>, StoreError>)
        ensures
            r matches Ok(b) ==> exists|ps: Seq<(Seq<u8>, DescriptionV)>|
                {
                    &&& b@ == enc_container(ps)
                    &&& #[trigger] pairs_match_map(ps, self@)
                    &&& container_encodable(ps)
                },
            r matches Err(e) ==> e is Io,
    {
        let recs = match self.entries() {
            Ok(v) => v,
            Err(e) => {
                return Err(e);
            },
        };
        let b = encode_container(&recs);
        proof {
            let ps = pairs_view(recs@);
            assert forall|i: int| 0 <= i < ps.len() implies self@.contains_pair(
                (#[trigger] ps[i]).0,
                ps[i].1,
            ) by {
                assert(self@.contains_pair(recs@[i].0@, recs@[i].1@));
            }
            assert forall|k: Seq<u8>| #[trigger] self@.dom().contains(k) implies exists|i: int|
                0 <= i < ps.len() && (#[trigger] ps[i]).0 == k by {
                let i = choose|i: int| 0 <= i < recs@.len() && (#[trigger] recs@[i].0@) == k;
                assert(ps[i].0 == k);
            }
            assert(pairs_match_map(ps, self@));
            assert forall|i: int| 0 <= i < ps.len() implies pair_encodable(#[trigger] ps[i]) by {
                assert(self@.contains_pair(recs@[i].0@, recs@[i].1@));
                assert(self@.dom().contains(ps[i].0));
                assert(desc_encodable(pairs_view(recs@)[i].1));
            }
            assert(recs@.len() == recs.len());
            assert(container_encodable(ps));
        }
        Ok(b)
    }

    /// Reads a container and upserts every pair in order under its original
    /// identifier, returning the pairs so the caller can reconcile its own
    /// copies. A container that does not decode changes nothing.
    pub fn import_bytes(&mut self, bytes: &Vec<u8>) -> (r: Result<
        Vec<(Id, Description)>,
        StoreError,
    >)
        ensures
            r matches Ok(v) ==> {
                &&& dec_container(bytes@) == Some(pairs_view(v@))
                &&& final(self)@ == upsert_all(old(self)@, pairs_view(v@))
            },
            dec_container(bytes@) is None ==> final(self)@ == old(self)@,
            r matches Err(e) ==> (e is Io || e is Corrupt),
    {
        let pairs = match decode_container(bytes) {
            Some(v) => v,
            None => {
                return Err(StoreError::Corrupt);
            },
        };
        let ghost ps = pairs_view(pairs@);
        let mut idx: usize = 0;
        while idx < pairs.len()
            invariant
                idx <= pairs@.len(),
                ps == pairs_view(pairs@),
                dec_container(bytes@) == Some(ps),
                forall|i: int| 0 <= i < pairs@.len() ==> (#[trigger] pairs@[i]).0@.len() == 16,
                self@ == upsert_all(old(self)@, ps.take(idx as int)),
            decreases pairs@.len() - idx,
        {
            let p = &pairs[idx];
            let ghost before = self@;
            match self.update(&p.0, &p.1) {
                Ok(()) => {},
                Err(e) => {
                    return Err(e);
                },
            }
            proof {
                assert(self@ == before.insert(ps[idx as int].0, ps[idx as int].1));
                assert(ps.take(idx + 1).drop_last() =~= ps.take(idx as int));
                assert(ps.take(idx + 1) =~= ps.take(idx as int).push(ps[idx as int]));
                lemma_upsert_all_snoc(old(self)@, ps.take(idx as int), ps[idx as int]);
            }
            idx = idx + 1;
        }
        proof {
            assert(ps.take(pairs@.len() as int) =~= ps);
        }
        Ok(pairs)
    }
}

/// The records after upserting a sequence of pairs, one after the other in
/// order.
pub open spec fn upsert_all(
    m: Map<Seq<u8>, DescriptionV>,
    ps: Seq<(Seq<u8>, DescriptionV)>,
) -> Map<Seq<u8>, DescriptionV>
    decreases ps.len(),
{
    if ps.len() == 0 {
        m
    } else {
        upsert_all(m.insert(ps[0].0, ps[0].1), ps.drop_first())
    }
}

proof fn lemma_upsert_all_snoc(
    m: Map<Seq<u8>, DescriptionV>,
    ps: Seq<(Seq<u8>, DescriptionV)>,
    p: (Seq<u8>, DescriptionV),
)
    ensures
        upsert_all(m, ps.push(p)) == upsert_all(m, ps).insert(p.0, p.1),
    decreases ps.len(),
{
    if ps.len() == 0 {
        assert(ps.push(p)[0] == p);
        assert(ps.push(p).drop_first() =~= Seq::<(Seq<u8>, DescriptionV)>::empty());
        assert(upsert_all(m, ps.push(p)) == upsert_all(
            m.insert(p.0, p.1),
            ps.push(p).drop_first(),
        ));
        assert(upsert_all(m.insert(p.0, p.1), ps.push(p).drop_first()) == m.insert(p.0, p.1));
        assert(upsert_all(m, ps) == m);
    } else {
        assert(ps.push(p)[0] == ps[0]);
        assert(ps.push(p).drop_first() =~= ps.drop_first().push(p));
        assert(upsert_all(m, ps.push(p)) == upsert_all(
            m.insert(ps[0].0, ps[0].1),
            ps.drop_first().push(p),
        ));
        lemma_upsert_all_snoc(m.insert(ps[0].0, ps[0].1), ps.drop_first(), p);
        assert(upsert_all(m, ps) == upsert_all(m.insert(ps[0].0, ps[0].1), ps.drop_first()));
    }
}

/// How exported pairs stand for the records: every pair is a record, no
/// identifier appears twice, and every record's identifier appears.
pub open spec fn pairs_match_map(
    ps: Seq<(Seq<u8>, DescriptionV)>,
    m: Map<Seq<u8>, DescriptionV>,
) -> bool {
    &&& forall|i: int| 0 <= i < ps.len() ==> m.contains_pair((#[trigger] ps[i]).0, ps[i].1)
    &&& forall|i: int, j: int| 0 <= i < j < ps.len() ==> ps[i].0 != ps[j].0
    &&& forall|k: Seq<u8>|
        #[trigger] m.dom().contains(k) ==> exists|i: int|
            0 <= i < ps.len() && (#[trigger] ps[i]).0 == k
}

/// How a listing of records stands for the records themselves: every pair
/// listed is a record, no identifier is listed twice, and every record's
/// identifier is listed.
pub open spec fn entry_list_matches(
    v: Seq<(Id, Description)>,
    m: Map<Seq<u8>, DescriptionV>,
) -> bool {
    &&& forall|i: int| 0 <= i < v.len() ==> m.contains_pair(#[trigger] v[i].0@, v[i].1@)
    &&& forall|i: int, j: int| 0 <= i < j < v.len() ==> v[i].0@ != v[j].0@
    &&& forall|k: Seq<u8>|
        #[trigger] m.dom().contains(k) ==> exists|i: int|
            0 <= i < v.len() && (#[trigger] v[i].0@) == k
}

/// Decodes the raw bindings of a tree into records, skipping every binding
/// that is no record, and keeping exactly the records of the tree.
#[verifier::loop_isolation(false)]
#[verifier::rlimit(50)]
fn collect_records(Ghost(m): Ghost<Map<Seq<u8>, Seq<u8>>>, raw: Vec<(Vec<u8>, Vec<u8>)>) -> (out:
    Vec<(Id, Description)>)
    requires
        forall|i: int| 0 <= i < raw@.len() ==> m.contains_pair(#[trigger] raw@[i].0@, raw@[i].1@),
        forall|i: int, j: int| 0 <= i < j < raw@.len() ==> raw@[i].0@ != raw@[j].0@,
        forall|k: Seq<u8>|
            #[trigger] m.dom().contains(k) ==> exists|i: int|
                0 <= i < raw@.len() && (#[trigger] raw@[i].0@) == k,
    ensures
        entry_list_matches(out@, entries_map(m)),
{
    let mut out: Vec<(Id, Description)> = Vec::new();
    let mut idx: usize = 0;
    while idx < raw.len()
        invariant
            idx <= raw@.len(),
            forall|i: int|
                0 <= i < out@.len() ==> entries_map(m).contains_pair(
                    #[trigger] out@[i].0@,
                    out@[i].1@,
                ),
            forall|i1: int, i2: int| 0 <= i1 < i2 < out@.len() ==> out@[i1].0@ != out@[i2].0@,
            forall|i: int|
                0 <= i < out@.len() ==> exists|j: int|
                    0 <= j < idx && (#[trigger] out@[i].0@) == raw@[j].0@,
            forall|j: int|
                0 <= j < idx && entries_map(m).dom().contains(#[trigger] raw@[j].0@)
                    ==> exists|i: int| 0 <= i < out@.len() && (#[trigger] out@[i].0@) == raw@[j].0@,
        decreases raw@.len() - idx,
    {
        let ghost key_seq = raw@[idx as int].0@;
        proof {
            assert(m.contains_pair(key_seq, raw@[idx as int].1@));
        }
        let key = &raw[idx].0;
        if key.len() == 16 {
            match crate::codec::decode_description_full(&raw[idx].1) {
                Some(d) => {
                    let id = match Id::from_bytes(vstd::slice::slice_to_vec(key.as_slice())) {
                        Some(id) => id,
                        None => {
                            proof {
                                assert(false);
                            }
                            return out;
                        },
                    };
                    let ghost prev = out@;
                    proof {
                        assert(entries_map(m).contains_pair(key_seq, d@));
                        assert forall|i: int| 0 <= i < prev.len() implies prev[i].0@ != key_seq by {
                            let j = choose|j: int|
                                0 <= j < idx && (#[trigger] prev[i].0@) == raw@[j].0@;
                            assert(raw@[j].0@ != raw@[idx as int].0@);
                        }
                    }
                    out.push((id, d));
                    proof {
                        assert(out@ == prev.push((id, d)));
                        assert(out@[prev.len() as int].0@ == key_seq);
                        assert forall|i: int| 0 <= i < out@.len() implies exists|j: int|
                            0 <= j < idx + 1 && (#[trigger] out@[i].0@) == raw@[j].0@ by {
                            if i < prev.len() {
                                let j = choose|j: int|
                                    0 <= j < idx && (#[trigger] prev[i].0@) == raw@[j].0@;
                                assert(out@[i].0@ == raw@[j].0@);
                            } else {
                                assert(out@[i].0@ == raw@[idx as int].0@);
                            }
                        }
                        assert forall|j: int|
                            0 <= j < idx + 1 && entries_map(m).dom().contains(
                                #[trigger] raw@[j].0@,
                            ) implies exists|i: int|
                            0 <= i < out@.len() && (#[trigger] out@[i].0@) == raw@[j].0@ by {
                            if j < idx {
                                let i = choose|i: int|
                                    0 <= i < prev.len() && (#[trigger] prev[i].0@) == raw@[j].0@;
                                assert(out@[i].0@ == raw@[j].0@);
                            } else {
                                assert(out@[prev.len() as int].0@ == raw@[j].0@);
                            }
                        }
                    }
                },
                None => {
                    proof {
                        assert(!entries_map(m).dom().contains(key_seq));
                        assert forall|j: int|
                            0 <= j < idx + 1 && entries_map(m).dom().contains(
                                #[trigger] raw@[j].0@,
                            ) implies exists|i: int|
                            0 <= i < out@.len() && (#[trigger] out@[i].0@) == raw@[j].0@ by {
                            assert(j < idx);
                        }
                    }
                },
            }
        } else {
            proof {
                assert(!entries_map(m).dom().contains(key_seq));
                assert forall|j: int|
                    0 <= j < idx + 1 && entries_map(m).dom().contains(
                        #[trigger] raw@[j].0@,
                    ) implies exists|i: int|
                    0 <= i < out@.len() && (#[trigger] out@[i].0@) == raw@[j].0@ by {
                    assert(j < idx);
                }
            }
        }
        idx = idx + 1;
    }
    proof {
        assert forall|k: Seq<u8>| #[trigger] entries_map(m).dom().contains(k) implies exists|
            i: int,
        |
            0 <= i < out@.len() && (#[trigger] out@[i].0@) == k by {
            assert(m.dom().contains(k));
            let j = choose|j: int| 0 <= j < raw@.len() && (#[trigger] raw@[j].0@) == k;
            assert(entries_map(m).dom().contains(raw@[j].0@));
        }
    }
    out
}

/// Upserting the same pair twice leaves the records exactly as upserting it
/// once: update is idempotent in content.
pub proof fn lemma_update_idempotent(m: Map<Seq<u8>, DescriptionV>, k: Seq<u8>, d: DescriptionV)
    ensures
        m.insert(k, d).insert(k, d) == m.insert(k, d),
{
    assert(m.insert(k, d).insert(k, d) =~= m.insert(k, d));
}

/// Removing an identifier that names no record leaves the records unchanged.
pub proof fn lemma_remove_absent(m: Map<Seq<u8>, DescriptionV>, k: Seq<u8>)
    requires
        !m.dom().contains(k),
    ensures
        m.remove(k) == m,
{
    assert(m.remove(k) =~= m);
}

/// What upserting a sequence of pairs with pairwise distinct identifiers
/// does: every pair is bound afterwards, nothing else appears, and bindings
/// whose identifier is not among the pairs are untouched.
proof fn lemma_upsert_all_effect(m0: Map<Seq<u8>, DescriptionV>, ps: Seq<(Seq<u8>, DescriptionV)>)
    requires
        forall|i: int, j: int| 0 <= i < j < ps.len() ==> ps[i].0 != ps[j].0,
    ensures
        forall|i: int|
            0 <= i < ps.len() ==> upsert_all(m0, ps).contains_pair((#[trigger] ps[i]).0, ps[i].1),
        forall|k: Seq<u8>|
            #[trigger] upsert_all(m0, ps).dom().contains(k) ==> m0.dom().contains(k) || exists|
                i: int,
            | 0 <= i < ps.len() && (#[trigger] ps[i]).0 == k,
        forall|k: Seq<u8>|
            #[trigger] m0.dom().contains(k) ==> upsert_all(m0, ps).dom().contains(k),
        forall|k: Seq<u8>|
            #[trigger] m0.dom().contains(k) && (forall|i: int|
                0 <= i < ps.len() ==> (#[trigger] ps[i]).0 != k) ==> upsert_all(m0, ps)[k]
                == m0[k],
    decreases ps.len(),
{
    if ps.len() > 0 {
        let m1 = m0.insert(ps[0].0, ps[0].1);
        let rest = ps.drop_first();
        assert(forall|i: int| 0 <= i < rest.len() ==> (#[trigger] rest[i]) == ps[i + 1]);
        lemma_upsert_all_effect(m1, rest);
        assert(upsert_all(m0, ps) == upsert_all(m1, rest));
        assert forall|i: int| 0 <= i < ps.len() implies upsert_all(m0, ps).contains_pair(
            (#[trigger] ps[i]).0,
            ps[i].1,
        ) by {
            if i == 0 {
                assert(m1.dom().contains(ps[0].0));
                assert(forall|j: int| 0 <= j < rest.len() ==> (#[trigger] rest[j]).0 != ps[0].0);
                assert(upsert_all(m1, rest)[ps[0].0] == m1[ps[0].0]);
            } else {
                assert(rest[i - 1] == ps[i]);
                assert(upsert_all(m1, rest).contains_pair(rest[i - 1].0, rest[i - 1].1));
            }
        }
        assert forall|k: Seq<u8>| #[trigger] upsert_all(m0, ps).dom().contains(k) implies m0.dom(
        ).contains(k) || exists|i: int| 0 <= i < ps.len() && (#[trigger] ps[i]).0 == k by {
            if !m0.dom().contains(k) {
                if k == ps[0].0 {
                    assert((ps[0]).0 == k);
                } else {
                    assert(!m1.dom().contains(k) || m0.dom().contains(k) || k == ps[0].0);
                    let i = choose|i: int| 0 <= i < rest.len() && (#[trigger] rest[i]).0 == k;
                    assert((ps[i + 1]).0 == k);
                }
            }
        }
        assert forall|k: Seq<u8>| #[trigger] m0.dom().contains(k) implies upsert_all(
            m0,
            ps,
        ).dom().contains(k) by {
            assert(m1.dom().contains(k));
        }
        assert forall|k: Seq<u8>|
            #[trigger] m0.dom().contains(k) && (forall|i: int|
                0 <= i < ps.len() ==> (#[trigger] ps[i]).0 != k) implies upsert_all(m0, ps)[k]
            == m0[k] by {
            assert(ps[0].0 != k);
            assert(m1.dom().contains(k) && m1[k] == m0[k]);
            assert(forall|i: int| 0 <= i < rest.len() ==> (#[trigger] rest[i]).0 != k);
            assert(upsert_all(m1, rest)[k] == m1[k]);
        }
    }
}

/// Round trip of the container format together with the store: a container
/// exported from records `m` decodes to the very pairs written, and
/// importing those pairs into an empty store reproduces `m` exactly.
pub proof fn lemma_export_import_round_trip(
    ps: Seq<(Seq<u8>, DescriptionV)>,
    m: Map<Seq<u8>, DescriptionV>,
)
    requires
        pairs_match_map(ps, m),
        container_encodable(ps),
    ensures
        dec_container(enc_container(ps)) == Some(ps),
        upsert_all(Map::empty(), ps) == m,
{
    crate::codec::lemma_enc_dec_container(ps);
    let empty = Map::<Seq<u8>, DescriptionV>::empty();
    lemma_upsert_all_effect(empty, ps);
    let u = upsert_all(empty, ps);
    assert forall|k: Seq<u8>| u.dom().contains(k) <==> m.dom().contains(k) by {
        if u.dom().contains(k) {
            let i = choose|i: int| 0 <= i < ps.len() && (#[trigger] ps[i]).0 == k;
            assert(m.contains_pair(ps[i].0, ps[i].1));
        }
        if m.dom().contains(k) {
            let i = choose|i: int| 0 <= i < ps.len() && (#[trigger] ps[i]).0 == k;
            assert(u.contains_pair(ps[i].0, ps[i].1));
        }
    }
    assert forall|k: Seq<u8>| #[trigger] u.dom().contains(k) implies u[k] == m[k] by {
        let i = choose|i: int| 0 <= i < ps.len() && (#[trigger] ps[i]).0 == k;
        assert(u.contains_pair(ps[i].0, ps[i].1));
        assert(m.contains_pair(ps[i].0, ps[i].1));
    }
    assert(u =~= m);
}

} // verus!

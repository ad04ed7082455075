//! Hash tables.
use crate::disk::slice::{Attr, InfoHash, SliceId};
use crate::disk::torrent::TorrentState;
use crate::peer::{PeerCtx, PeerId};
use vstd::prelude::*;

verus! {

/// A set of slice IDs.
#[verifier::external_body]
pub struct IdSet {
    set: hashbrown::HashSet<SliceId>,
}

/// The IDs in a set.
pub uninterp spec fn id_set_contents(set: IdSet) -> Set<SliceId>;

impl View for IdSet {
    type V = Set<SliceId>;

    open spec fn view(&self) -> Set<SliceId> {
        id_set_contents(*self)
    }
}

impl IdSet {
    /// `hashbrown::HashSet::new`: the set is empty.
    #[verifier::external_body]
    pub(crate) fn new() -> (res: Self)
        ensures
            id_set_contents(res) == Set::<SliceId>::empty(),
    {
        IdSet { set: hashbrown::HashSet::new() }
    }

    /// `hashbrown::HashSet::insert`: the set has the ID from now on.
    /// The result tells whether it did not have it before.
    #[verifier::external_body]
    pub(crate) fn insert(&mut self, id: SliceId) -> (res: bool)
        ensures
            id_set_contents(*final(self)) == id_set_contents(*old(self)).insert(id),
            res == !id_set_contents(*old(self)).contains(id),
    {
        self.set.insert(id)
    }

    /// `hashbrown::HashSet::remove`: the set does not have the ID from now on.
    /// The result tells whether it had it before.
    #[verifier::external_body]
    pub(crate) fn remove(&mut self, id: SliceId) -> (res: bool)
        ensures
            id_set_contents(*final(self)) == id_set_contents(*old(self)).remove(id),
            res == id_set_contents(*old(self)).contains(id),
    {
        self.set.remove(&id)
    }

    /// `hashbrown::HashSet::iter`: every ID of the set once, in an order that is not told.
    #[verifier::external_body]
    pub(crate) fn to_vec(&self) -> (res: Vec<SliceId>)
        ensures
            res@.no_duplicates(),
            forall|id: SliceId| #[trigger]
                res@.contains(id) <==> id_set_contents(*self).contains(id),
    {
        self.set.iter().copied().collect()
    }
}

/// A map from slice IDs to slice attributes.
#[verifier::external_body]
pub struct AttrMap {
    map: hashbrown::HashMap<SliceId, Attr>,
}

/// The entries of a map.
pub uninterp spec fn attr_map_contents(map: AttrMap) -> Map<SliceId, Attr>;

impl View for AttrMap {
    type V = Map<SliceId, Attr>;

    open spec fn view(&self) -> Map<SliceId, Attr> {
        attr_map_contents(*self)
    }
}

impl AttrMap {
    /// `hashbrown::HashMap::new`: the map is empty.
    #[verifier::external_body]
    pub(crate) fn new() -> (res: Self)
        ensures
            (attr_map_contents(res) == Map::<SliceId, Attr>::empty()),
    {
        AttrMap { map: hashbrown::HashMap::new() }
    }

    /// `hashbrown::HashMap::get`: the value of the key if there is one.
    #[verifier::external_body]
    pub(crate) fn get(&self, id: SliceId) -> (res: Option<&Attr>)
        ensures
            match res {
                Some(attr) => attr_map_contents(*self).contains_key(id) && *attr
                    == attr_map_contents(*self)[id],
                None => !attr_map_contents(*self).contains_key(id),
            },
    {
        self.map.get(&id)
    }

    /// `hashbrown::HashMap::get_mut`: the value of the key if there is one.
    /// What is written to it becomes the value of the key.
    #[verifier::external_body]
    pub(crate) fn get_mut(&mut self, id: SliceId) -> (res: Option<&mut Attr>)
        ensures
            match res {
                Some(attr) => attr_map_contents(*old(self)).contains_key(id) && *attr
                    == attr_map_contents(*old(self))[id] && attr_map_contents(*final(self))
                    == attr_map_contents(*old(self)).insert(id, *final(attr)),
                None => !attr_map_contents(*old(self)).contains_key(id) && attr_map_contents(
                    *final(self),
                ) == attr_map_contents(*old(self)),
            },
    {
        self.map.get_mut(&id)
    }

    /// `hashbrown::HashMap::insert`: the value of the key is `attr` from now on.
    /// The result is its value before if there was one.
    #[verifier::external_body]
    pub(crate) fn insert(&mut self, id: SliceId, attr: Attr) -> (res: Option<Attr>)
        ensures
            attr_map_contents(*final(self)) == attr_map_contents(*old(self)).insert(id, attr),
            res is Some <==> attr_map_contents(*old(self)).contains_key(id),
            res matches Some(before) ==> before == attr_map_contents(*old(self))[id],
    {
        self.map.insert(id, attr)
    }

    /// `hashbrown::HashMap::remove`: the key has no value from now on.
    /// The result is its value before if there was one.
    #[verifier::external_body]
    pub(crate) fn remove(&mut self, id: SliceId) -> (res: Option<Attr>)
        ensures
            attr_map_contents(*final(self)) == attr_map_contents(*old(self)).remove(id),
            res is Some <==> attr_map_contents(*old(self)).contains_key(id),
            res matches Some(before) ==> before == attr_map_contents(*old(self))[id],
    {
        self.map.remove(&id)
    }
}

/// A map from info hashes to sets of slice IDs.
#[verifier::external_body]
pub struct TorrentIndex {
    map: hashbrown::HashMap<InfoHash, IdSet>,
}

/// The entries of a map.
pub uninterp spec fn torrent_index_contents(map: TorrentIndex) -> Map<Seq<u8>, IdSet>;

impl View for TorrentIndex {
    type V = Map<Seq<u8>, IdSet>;

    open spec fn view(&self) -> Map<Seq<u8>, IdSet> {
        torrent_index_contents(*self)
    }
}

impl TorrentIndex {
    /// `hashbrown::HashMap::new`: the map is empty.
    #[verifier::external_body]
    pub(crate) fn new() -> (res: Self)
        ensures
            (torrent_index_contents(res) == Map::<Seq<u8>, IdSet>::empty()),
    {
        TorrentIndex { map: hashbrown::HashMap::new() }
    }

    /// `hashbrown::HashMap::get`: the value of the key if there is one.
    #[verifier::external_body]
    pub(crate) fn get(&self, info_hash: &InfoHash) -> (res: Option<&IdSet>)
        ensures
            match res {
                Some(ids) => torrent_index_contents(*self).contains_key(info_hash@) && *ids
                    == torrent_index_contents(*self)[info_hash@],
                None => !torrent_index_contents(*self).contains_key(info_hash@),
            },
    {
        self.map.get(info_hash)
    }

    /// `hashbrown::HashMap::get_mut`: the value of the key if there is one.
    /// What is written to it becomes the value of the key.
    #[verifier::external_body]
    pub(crate) fn get_mut(&mut self, info_hash: &InfoHash) -> (res: Option<&mut IdSet>)
        ensures
            match res {
                Some(ids) => torrent_index_contents(*old(self)).contains_key(info_hash@) && *ids
                    == torrent_index_contents(*old(self))[info_hash@] && torrent_index_contents(
                    *final(self),
                ) == torrent_index_contents(*old(self)).insert(info_hash@, *final(ids)),
                None => !torrent_index_contents(*old(self)).contains_key(info_hash@)
                    && torrent_index_contents(*final(self)) == torrent_index_contents(*old(self)),
            },
    {
        self.map.get_mut(info_hash)
    }

    /// `hashbrown::HashMap::insert`: the value of the key is `ids` from now on.
    #[verifier::external_body]
    pub(crate) fn insert(&mut self, info_hash: InfoHash, ids: IdSet)
        ensures
            torrent_index_contents(*final(self)) == torrent_index_contents(*old(self)).insert(
                info_hash@,
                ids,
            ),
    {
        self.map.insert(info_hash, ids);
    }
}

/// A map from info hashes and piece indices to sets of slice IDs.
#[verifier::external_body]
pub struct ReadReqIndex {
    map: hashbrown::HashMap<(InfoHash, u32), IdSet>,
}

/// The entries of a map.
pub uninterp spec fn read_req_index_contents(map: ReadReqIndex) -> Map<(Seq<u8>, u32), IdSet>;

impl View for ReadReqIndex {
    type V = Map<(Seq<u8>, u32), IdSet>;

    open spec fn view(&self) -> Map<(Seq<u8>, u32), IdSet> {
        read_req_index_contents(*self)
    }
}

impl ReadReqIndex {
    /// `hashbrown::HashMap::new`: the map is empty.
    #[verifier::external_body]
    pub(crate) fn new() -> (res: Self)
        ensures
            (read_req_index_contents(res) == Map::<(Seq<u8>, u32), IdSet>::empty()),
    {
        ReadReqIndex { map: hashbrown::HashMap::new() }
    }

    /// `hashbrown::HashMap::get_mut`: the value of the key if there is one.
    /// What is written to it becomes the value of the key.
    #[verifier::external_body]
    pub(crate) fn get_mut(&mut self, key: &(InfoHash, u32)) -> (res: Option<&mut IdSet>)
        ensures
            match res {
                Some(ids) => read_req_index_contents(*old(self)).contains_key((key.0@, key.1))
                    && *ids == read_req_index_contents(*old(self))[(key.0@, key.1)]
                    && read_req_index_contents(*final(self)) == read_req_index_contents(
                    *old(self),
                ).insert((key.0@, key.1), *final(ids)),
                None => !read_req_index_contents(*old(self)).contains_key((key.0@, key.1))
                    && read_req_index_contents(*final(self)) == read_req_index_contents(
                    *old(self),
                ),
            },
    {
        self.map.get_mut(key)
    }

    /// `hashbrown::HashMap::insert`: the value of the key is `ids` from now on.
    #[verifier::external_body]
    pub(crate) fn insert(&mut self, key: (InfoHash, u32), ids: IdSet)
        ensures
            read_req_index_contents(*final(self)) == read_req_index_contents(*old(self)).insert(
                (key.0@, key.1),
                ids,
            ),
    {
        self.map.insert(key, ids);
    }

    /// `hashbrown::HashMap::remove`: the key has no value from now on.
    /// The result is its value before if there was one.
    #[verifier::external_body]
    pub(crate) fn remove(&mut self, key: &(InfoHash, u32)) -> (res: Option<IdSet>)
        ensures
            read_req_index_contents(*final(self)) == read_req_index_contents(*old(self)).remove(
                (key.0@, key.1),
            ),
            res is Some <==> read_req_index_contents(*old(self)).contains_key((key.0@, key.1)),
            res matches Some(ids) ==> ids == read_req_index_contents(
                *old(self),
            )[(key.0@, key.1)],
    {
        self.map.remove(key)
    }
}

/// A map from info hashes to downloads.
#[verifier::external_body]
pub struct TorrentMap {
    map: hashbrown::HashMap<InfoHash, TorrentState>,
}

/// The entries of a map.
pub uninterp spec fn torrent_map_contents(map: TorrentMap) -> Map<Seq<u8>, TorrentState>;

impl View for TorrentMap {
    type V = Map<Seq<u8>, TorrentState>;

    open spec fn view(&self) -> Map<Seq<u8>, TorrentState> {
        torrent_map_contents(*self)
    }
}

impl TorrentMap {
    /// `hashbrown::HashMap::new`: the map is empty.
    #[verifier::external_body]
    pub(crate) fn new() -> (res: Self)
        ensures
            (torrent_map_contents(res) == Map::<Seq<u8>, TorrentState>::empty()),
    {
        TorrentMap { map: hashbrown::HashMap::new() }
    }

    /// `hashbrown::HashMap::get`: the value of the key if there is one.
    #[verifier::external_body]
    pub(crate) fn get(&self, info_hash: &InfoHash) -> (res: Option<&TorrentState>)
        ensures
            match res {
                Some(torrent) => torrent_map_contents(*self).contains_key(info_hash@) && *torrent
                    == torrent_map_contents(*self)[info_hash@],
                None => !torrent_map_contents(*self).contains_key(info_hash@),
            },
    {
        self.map.get(info_hash)
    }

    /// `hashbrown::HashMap::get_mut`: the value of the key if there is one.
    /// What is written to it becomes the value of the key.
    #[verifier::external_body]
    pub(crate) fn get_mut(&mut self, info_hash: &InfoHash) -> (res: Option<&mut TorrentState>)
        ensures
            match res {
                Some(torrent) => torrent_map_contents(*old(self)).contains_key(info_hash@)
                    && *torrent == torrent_map_contents(*old(self))[info_hash@]
                    && torrent_map_contents(*final(self)) == torrent_map_contents(
                    *old(self),
                ).insert(info_hash@, *final(torrent)),
                None => !torrent_map_contents(*old(self)).contains_key(info_hash@)
                    && torrent_map_contents(*final(self)) == torrent_map_contents(*old(self)),
            },
    {
        self.map.get_mut(info_hash)
    }

    /// `hashbrown::HashMap::insert`: the value of the key is `torrent` from now on.
    #[verifier::external_body]
    pub(crate) fn insert(&mut self, info_hash: InfoHash, torrent: TorrentState)
        ensures
            torrent_map_contents(*final(self)) == torrent_map_contents(*old(self)).insert(
                info_hash@,
                torrent,
            ),
    {
        self.map.insert(info_hash, torrent);
    }
}

/// A map from peer IDs to peers.
#[verifier::external_body]
pub struct PeerMap {
    map: hashbrown::HashMap<PeerId, PeerCtx>,
}

/// The entries of a map.
pub uninterp spec fn peer_map_contents(map: PeerMap) -> Map<Seq<u8>, PeerCtx>;

impl View for PeerMap {
    type V = Map<Seq<u8>, PeerCtx>;

    open spec fn view(&self) -> Map<Seq<u8>, PeerCtx> {
        peer_map_contents(*self)
    }
}

impl PeerMap {
    /// `hashbrown::HashMap::new`: the map is empty.
    #[verifier::external_body]
    pub(crate) fn new() -> (res: Self)
        ensures
            (peer_map_contents(res) == Map::<Seq<u8>, PeerCtx>::empty()),
    {
        PeerMap { map: hashbrown::HashMap::new() }
    }

    /// `hashbrown::HashMap::get`: the value of the key if there is one.
    #[verifier::external_body]
    pub(crate) fn get(&self, id: &PeerId) -> (res: Option<&PeerCtx>)
        ensures
            match res {
                Some(peer) => peer_map_contents(*self).contains_key(id@) && *peer
                    == peer_map_contents(*self)[id@],
                None => !peer_map_contents(*self).contains_key(id@),
            },
    {
        self.map.get(id)
    }

    /// `hashbrown::HashMap::insert`: the value of the key is `peer` from now on.
    #[verifier::external_body]
    pub(crate) fn insert(&mut self, id: PeerId, peer: PeerCtx)
        ensures
            peer_map_contents(*final(self)) == peer_map_contents(*old(self)).insert(id@, peer),
    {
        self.map.insert(id, peer);
    }

    /// `hashbrown::HashMap::iter`: every key with its value once, in an order that is not told.
    #[verifier::external_body]
    pub(crate) fn to_vec(&self) -> (res: Vec<(&PeerId, &PeerCtx)>)
        ensures
            forall|i: int|
                0 <= i < res@.len() ==> peer_map_contents(*self).contains_key(
                    (#[trigger] res@[i]).0@,
                ) && *res@[i].1 == peer_map_contents(*self)[res@[i].0@],
            forall|i: int, j: int|
                0 <= i < j < res@.len() ==> (#[trigger] res@[i]).0@ != (#[trigger] res@[j]).0@,
            forall|id: Seq<u8>| #[trigger]
                peer_map_contents(*self).contains_key(id) ==> exists|i: int|
                    0 <= i < res@.len() && (#[trigger] res@[i]).0@ == id,
    {
        self.map.iter().collect()
    }
}

} // verus!

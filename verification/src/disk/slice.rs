//! Slices: the parts of torrents that are being read.
use crate::disk::tables::{AttrMap, IdSet, ReadReqIndex, TorrentIndex};
use crate::tcp_wire::BlockInfo;
use std::ops::Range;
use vstd::prelude::*;

verus! {

/// The number of bits in a SHA-1 hash.
pub const INFO_HASH_BIT_N: u8 = 160;

/// The number of bytes in a SHA-1 hash.
pub const INFO_HASH_BYTE_N: u8 = 20;

/// See [`INFO_HASH_BYTE_N`].
pub const INFO_HASH_BYTE_N_USIZE: usize = 20;

/// The SHA-1 hash that identifies a torrent.
pub type InfoHash = [u8; INFO_HASH_BYTE_N_USIZE];

/// Identifies a slice.
pub type SliceId = usize;

/// Generates a fresh ID using `cur_id` as a state.
/// IDs don't repeat.
pub fn gen_id(cur_id: &mut SliceId) -> (res: Option<SliceId>)
    ensures
        res is Some <==> *old(cur_id) < usize::MAX,
        match res {
            Some(id) => id == *old(cur_id) && *final(cur_id) == id + 1,
            None => *final(cur_id) == *old(cur_id),
        },
{
    let id: SliceId = *cur_id;
    match id.checked_add(1) {
        Some(new_cur_id) => {
            *cur_id = new_cur_id;
            Some(id)
        },
        None => None,
    }
}

/// Slice attributes.
#[derive(Debug)]
pub struct SliceAttr<Payload, ReadReq> {
    /// The info hash of the torrent this slice belongs to.
    pub info_hash: InfoHash,
    /// What the slice stands for.
    pub payload: Payload,
    /// Slice read request.
    /// In `Some((piece_i, _))`, `piece_i` is a piece index.
    pub read_req: Option<(u32, ReadReq)>,
}

impl<Payload, ReadReq> SliceAttr<Payload, ReadReq> {
    /// The info hash of the torrent this slice belongs to.
    pub fn get_info_hash(&self) -> (res: &InfoHash)
        ensures
            *res == self.info_hash,
    {
        &self.info_hash
    }

    /// What the slice stands for.
    pub fn get_payload(&self) -> (res: &Payload)
        ensures
            *res == self.payload,
    {
        &self.payload
    }

    /// What the slice stands for, to change it.
    pub fn get_payload_mut(&mut self) -> (res: &mut Payload)
        ensures
            *res == old(self).payload,
            final(self).payload == *final(res),
            final(self).info_hash == old(self).info_hash,
            final(self).read_req == old(self).read_req,
    {
        &mut self.payload
    }
}

/// Slice read request.
#[derive(Clone, Copy, Debug, PartialEq, Eq, Structural)]
pub struct ReadSliceReq {
    /// The range in the torrent this read request intends to read.
    ///
    /// Beware that `block_info` is not required to be
    /// one of the blocks calculated for downloading by this client.
    /// It's just that [`BlockInfo`] is convenient for slice read requests.
    pub block_info: BlockInfo,
    /// The number by which the recipient of the answer is found.
    pub recipient: u64,
}

/// The attributes of a slice of a torrent: its payload is its byte range in the torrent.
pub type Attr = SliceAttr<Range<u64>, ReadSliceReq>;

/// What can go wrong in a [`SliceDb`].
#[derive(Clone, Copy, Debug, PartialEq, Eq, Structural)]
pub enum SliceDbError {
    /// The slice is not found.
    NoSlice,
    /// The slice DB is inconsistent.
    InconsistentDb,
    /// Slice ID generation failed.
    GenIdFailed,
    /// Multiple simultaneous read requests to a slice are forbidden.
    MultipleRead,
}

/// Slice DB. Slices are identified by [`SliceId`].
/// Every slice has attributes defined in [`SliceAttr`].
pub struct SliceDb {
    /// For generating slice IDs using [`gen_id`].
    cur_id: SliceId,
    attrs: AttrMap,
    /// For each `info_hash`, `slice_id` is in `torrents[info_hash]`
    /// iff `info_hash` equals the corresponding attribute of slice `slice_id`.
    torrents: TorrentIndex,
    /// For each `info_hash` and `piece_i`,
    /// `slice_id` is in `read_reqs[(info_hash, piece_i)]` iff
    /// `info_hash` equals the corresponding attribute of slice `slice_id`
    /// and the `read_req` attribute of slice `slice_id` is `Some((piece_i, _))`.
    read_reqs: ReadReqIndex,
}

/// Whether the ID `id` is in the set of the key `key` of an index.
spec fn indexed<K>(index: Map<K, IdSet>, key: K, id: SliceId) -> bool {
    index.contains_key(key) && index[key]@.contains(id)
}

/// Whether `attr` is of a slice of the torrent `info_hash` that waits for the piece `piece_i`.
pub open spec fn waits_for(attr: Attr, info_hash: Seq<u8>, piece_i: u32) -> bool {
    attr.info_hash@ == info_hash && attr.read_req is Some && (attr.read_req->0).0 == piece_i
}

/// The attributes `attr` without a read request.
pub open spec fn without_req(attr: Attr) -> Attr {
    SliceAttr { info_hash: attr.info_hash, payload: attr.payload, read_req: None }
}

/// Whether `ids` lists the slices of the torrent `info_hash`, every slice once.
pub open spec fn lists_torrent(
    attrs: Map<SliceId, Attr>,
    info_hash: Seq<u8>,
    ids: Seq<SliceId>,
) -> bool {
    &&& ids.no_duplicates()
    &&& forall|id: SliceId| #[trigger]
        ids.contains(id) <==> attrs.contains_key(id) && attrs[id].info_hash@ == info_hash
}

/// Whether `payloads` are the payloads of the slices of the torrent `info_hash` in some order.
pub open spec fn torrent_payloads(
    attrs: Map<SliceId, Attr>,
    info_hash: Seq<u8>,
    payloads: Seq<Range<u64>>,
) -> bool {
    exists|ids: Seq<SliceId>| #[trigger]
        lists_torrent(attrs, info_hash, ids) && payloads == ids.map_values(
            |id: SliceId| attrs[id].payload,
        )
}

/// Whether `after` is `before` but for the payload of the slice `id`.
spec fn payload_changed(before: SliceDb, after: SliceDb, id: SliceId) -> bool {
    &&& after.cur_id == before.cur_id
    &&& after.torrents == before.torrents
    &&& after.read_reqs == before.read_reqs
    &&& before.attrs@.contains_key(id)
    &&& after.attrs@ == before.attrs@.insert(id, after.attrs@[id])
    &&& after.attrs@[id].info_hash == before.attrs@[id].info_hash
    &&& after.attrs@[id].read_req == before.attrs@[id].read_req
}

impl Default for SliceDb {
    /// A DB without slices.
    fn default() -> (res: Self)
        ensures
            res.wf(),
            res.attrs() == Map::<SliceId, Attr>::empty(),
            res.next_id() == 0,
    {
        SliceDb {
            cur_id: 0,
            attrs: AttrMap::new(),
            torrents: TorrentIndex::new(),
            read_reqs: ReadReqIndex::new(),
        }
    }
}

impl SliceDb {
    /// The attributes of all slices.
    pub closed spec fn attrs(self) -> Map<SliceId, Attr> {
        self.attrs@
    }

    /// The ID of the next slice.
    pub closed spec fn next_id(self) -> SliceId {
        self.cur_id
    }

    /// Whether the indices agree with the attributes.
    pub closed spec fn wf(self) -> bool {
        &&& forall|id: SliceId| #[trigger] self.attrs@.contains_key(id) ==> id < self.cur_id
        &&& forall|info_hash: Seq<u8>, id: SliceId| #[trigger]
            indexed(self.torrents@, info_hash, id) <==> self.attrs@.contains_key(id)
                && self.attrs@[id].info_hash@ == info_hash
        &&& forall|info_hash: Seq<u8>, piece_i: u32, id: SliceId| #[trigger]
            indexed(self.read_reqs@, (info_hash, piece_i), id) <==> self.attrs@.contains_key(id)
                && waits_for(self.attrs@[id], info_hash, piece_i)
    }

    /// Every slice has an ID below the next one.
    pub proof fn ids_are_used(self, id: SliceId)
        requires
            self.wf(),
            self.attrs().contains_key(id),
        ensures
            id < self.next_id(),
    {
    }

    /// The attributes of a slice.
    pub fn get(&self, slice_id: SliceId) -> (res: Option<&Attr>)
        ensures
            match res {
                Some(attr) => self.attrs().contains_key(slice_id) && *attr
                    == self.attrs()[slice_id],
                None => !self.attrs().contains_key(slice_id),
            },
    {
        self.attrs.get(slice_id)
    }

    /// The attributes of a slice, to change its payload.
    pub fn get_mut(&mut self, slice_id: SliceId) -> (res: Option<&mut Attr>)
        requires
            old(self).wf(),
        ensures
            final(self).next_id() == old(self).next_id(),
            match res {
                Some(attr) => {
                    &&& old(self).attrs().contains_key(slice_id)
                    &&& *attr == old(self).attrs()[slice_id]
                    &&& final(self).attrs() == old(self).attrs().insert(slice_id, *final(attr))
                    &&& final(attr).info_hash == attr.info_hash && final(attr).read_req
                        == attr.read_req ==> final(self).wf()
                },
                None => {
                    &&& !old(self).attrs().contains_key(slice_id)
                    &&& final(self).attrs() == old(self).attrs()
                    &&& final(self).wf()
                },
            },
    {
        proof {
            let before = self.attrs@;
            assert forall|db: SliceDb| payload_changed(*old(self), db, slice_id) implies #[trigger]
                db.wf() by {
                let after = db.attrs@;
                assert forall|k: Seq<u8>, i: SliceId| #[trigger]
                    indexed(db.torrents@, k, i) <==> after.contains_key(i) && after[i].info_hash@
                        == k by {
                    assert(indexed(old(self).torrents@, k, i) <==> before.contains_key(i)
                        && before[i].info_hash@ == k);
                }
                assert forall|k: Seq<u8>, p: u32, i: SliceId| #[trigger]
                    indexed(db.read_reqs@, (k, p), i) <==> after.contains_key(i) && waits_for(
                        after[i],
                        k,
                        p,
                    ) by {
                    assert(indexed(old(self).read_reqs@, (k, p), i) <==> before.contains_key(i)
                        && waits_for(before[i], k, p));
                }
            }
        }
        self.attrs.get_mut(slice_id)
    }

    /// Adds a slice of the torrent `info_hash`.
    pub fn insert(&mut self, info_hash: InfoHash, payload: Range<u64>) -> (res: Result<
        SliceId,
        SliceDbError,
    >)
        requires
            old(self).wf(),
        ensures
            final(self).wf(),
            res is Ok <==> old(self).next_id() < usize::MAX,
            match res {
                Ok(id) => {
                    &&& id == old(self).next_id()
                    &&& !old(self).attrs().contains_key(id)
                    &&& final(self).next_id() == id + 1
                    &&& final(self).attrs() == old(self).attrs().insert(
                        id,
                        (SliceAttr { info_hash, payload, read_req: None }),
                    )
                },
                Err(e) => e == SliceDbError::GenIdFailed && *final(self) == *old(self),
            },
    {
        let id: SliceId = match gen_id(&mut self.cur_id) {
            Some(id) => id,
            None => {
                return Err(SliceDbError::GenIdFailed);
            },
        };
        let attr = SliceAttr { info_hash, payload, read_req: None };
        if self.attrs.insert(id, attr).is_some() {
            return Err(SliceDbError::InconsistentDb);
        }
        let ghost h = info_hash@;
        let is_new: bool = match self.torrents.get_mut(&info_hash) {
            Some(ids) => ids.insert(id),
            None => {
                let mut ids = IdSet::new();
                let is_new: bool = ids.insert(id);
                self.torrents.insert(info_hash, ids);
                is_new
            },
        };
        proof {
            assert(!indexed(old(self).torrents@, h, id));
            assert forall|k: Seq<u8>, i: SliceId| #[trigger]
                indexed(self.torrents@, k, i) <==> self.attrs@.contains_key(i)
                    && self.attrs@[i].info_hash@ == k by {
                assert(indexed(self.torrents@, k, i) <==> indexed(old(self).torrents@, k, i) || (k
                    == h && i == id));
            }
            assert forall|k: Seq<u8>, p: u32, i: SliceId| #[trigger]
                indexed(self.read_reqs@, (k, p), i) <==> self.attrs@.contains_key(i) && waits_for(
                    self.attrs@[i],
                    k,
                    p,
                ) by {
                assert(indexed(self.read_reqs@, (k, p), i) <==> indexed(
                    old(self).read_reqs@,
                    (k, p),
                    i,
                ));
            }
        }
        if !is_new {
            return Err(SliceDbError::InconsistentDb);
        }
        Ok(id)
    }

    /// Removes a slice.
    pub fn remove(&mut self, slice_id: SliceId) -> (res: Result<(), SliceDbError>)
        requires
            old(self).wf(),
        ensures
            final(self).wf(),
            final(self).next_id() == old(self).next_id(),
            res is Ok <==> old(self).attrs().contains_key(slice_id),
            final(self).attrs() == old(self).attrs().remove(slice_id),
            res matches Err(e) ==> e == SliceDbError::NoSlice,
    {
        let attr = match self.attrs.remove(slice_id) {
            Some(attr) => attr,
            None => {
                assert(self.attrs@ =~= old(self).attrs@);
                return Err(SliceDbError::NoSlice);
            },
        };
        let info_hash = attr.info_hash;
        let ghost h = info_hash@;
        let mut is_db_inconsistent: bool = false;
        assert(indexed(old(self).torrents@, h, slice_id));
        match self.torrents.get_mut(&info_hash) {
            None => {
                is_db_inconsistent = true;
            },
            Some(ids) => {
                if !ids.remove(slice_id) {
                    is_db_inconsistent = true;
                }
            },
        }
        assert forall|k: Seq<u8>, i: SliceId| #[trigger]
            indexed(self.torrents@, k, i) <==> self.attrs@.contains_key(i)
                && self.attrs@[i].info_hash@ == k by {
            assert(indexed(self.torrents@, k, i) <==> indexed(old(self).torrents@, k, i) && !(k == h
                && i == slice_id));
        }
        if let Some((piece_i, _)) = attr.read_req {
            assert(indexed(old(self).read_reqs@, (h, piece_i), slice_id));
            match self.read_reqs.get_mut(&(info_hash, piece_i)) {
                None => {
                    is_db_inconsistent = true;
                },
                Some(ids) => {
                    if !ids.remove(slice_id) {
                        is_db_inconsistent = true;
                    }
                },
            }
        }
        assert forall|k: Seq<u8>, p: u32, i: SliceId| #[trigger]
            indexed(self.read_reqs@, (k, p), i) <==> self.attrs@.contains_key(i) && waits_for(
                self.attrs@[i],
                k,
                p,
            ) by {
            assert(indexed(old(self).read_reqs@, (k, p), i) <==> old(self).attrs@.contains_key(i)
                && waits_for(old(self).attrs@[i], k, p));
            assert(i != slice_id ==> (indexed(self.read_reqs@, (k, p), i) <==> indexed(
                old(self).read_reqs@,
                (k, p),
                i,
            )));
            assert(indexed(old(self).read_reqs@, (k, p), slice_id) <==> waits_for(attr, k, p));
            assert(!indexed(self.read_reqs@, (k, p), slice_id));
        }
        if is_db_inconsistent {
            Err(SliceDbError::InconsistentDb)
        } else {
            Ok(())
        }
    }

    /// Inserts a read request to the slice.
    pub fn insert_read_req(&mut self, slice_id: SliceId, piece_i: u32, req: ReadSliceReq) -> (res:
        Result<(), (ReadSliceReq, SliceDbError)>)
        requires
            old(self).wf(),
        ensures
            final(self).wf(),
            final(self).next_id() == old(self).next_id(),
            match res {
                Ok(_) => {
                    &&& old(self).attrs().contains_key(slice_id)
                    &&& old(self).attrs()[slice_id].read_req is None
                    &&& final(self).attrs() == old(self).attrs().insert(
                        slice_id,
                        (SliceAttr {
                            read_req: Some((piece_i, req)),
                            ..old(self).attrs()[slice_id]
                        }),
                    )
                },
                Err((r, e)) => {
                    &&& r == req
                    &&& final(self).attrs() == old(self).attrs()
                    &&& if old(self).attrs().contains_key(slice_id) {
                        old(self).attrs()[slice_id].read_req is Some && e
                            == SliceDbError::MultipleRead
                    } else {
                        e == SliceDbError::NoSlice
                    }
                },
            },
    {
        let attr = match self.attrs.get_mut(slice_id) {
            None => {
                return Err((req, SliceDbError::NoSlice));
            },
            Some(attr) => attr,
        };
        if attr.read_req.is_some() {
            assert(self.attrs@ =~= old(self).attrs@);
            return Err((req, SliceDbError::MultipleRead));
        }
        let info_hash = attr.info_hash;
        attr.read_req = Some((piece_i, req));
        let ghost h = info_hash@;
        assert(!indexed(old(self).read_reqs@, (h, piece_i), slice_id));
        let key = (info_hash, piece_i);
        let is_new: bool = match self.read_reqs.get_mut(&key) {
            Some(ids) => ids.insert(slice_id),
            None => {
                let mut ids = IdSet::new();
                let is_new: bool = ids.insert(slice_id);
                self.read_reqs.insert(key, ids);
                is_new
            },
        };
        proof {
            assert forall|k: Seq<u8>, i: SliceId| #[trigger]
                indexed(self.torrents@, k, i) <==> self.attrs@.contains_key(i)
                    && self.attrs@[i].info_hash@ == k by {
                assert(indexed(self.torrents@, k, i) <==> indexed(old(self).torrents@, k, i));
            }
            assert forall|k: Seq<u8>, p: u32, i: SliceId| #[trigger]
                indexed(self.read_reqs@, (k, p), i) <==> self.attrs@.contains_key(i) && waits_for(
                    self.attrs@[i],
                    k,
                    p,
                ) by {
                assert(indexed(self.read_reqs@, (k, p), i) <==> indexed(
                    old(self).read_reqs@,
                    (k, p),
                    i,
                ) || (k == h && p == piece_i && i == slice_id));
            }
        }
        if is_new {
            Ok(())
        } else {
            Err((req, SliceDbError::InconsistentDb))
        }
    }

    /// Removes and returns all read requests to `i`.
    /// In `i` of the form `(_, piece_i)`, `piece_i` is a piece index.
    /// If it returns `Ok(a)`, elements of `a` are of the form `(_, piece_i, _)`
    /// where `piece_i` is a piece index.
    pub fn remove_read_reqs(&mut self, i: &(InfoHash, u32)) -> (res: Result<
        Vec<(SliceId, u32, ReadSliceReq)>,
        SliceDbError,
    >)
        requires
            old(self).wf(),
        ensures
            final(self).wf(),
            final(self).next_id() == old(self).next_id(),
            final(self).attrs() == reqs_removed(old(self).attrs(), i.0@, i.1),
            res matches Ok(reqs) && is_reqs(old(self).attrs(), i.0@, i.1, reqs@),
    {
        let mut r: Vec<(SliceId, u32, ReadSliceReq)> = Vec::new();
        let ids: Vec<SliceId> = match self.read_reqs.remove(i) {
            Some(ids) => ids.to_vec(),
            None => Vec::new(),
        };
        let ghost h = i.0@;
        let ghost p = i.1;
        let ghost before = old(self).attrs@;
        assert forall|id: SliceId| #[trigger] ids@.contains(id) <==> before.contains_key(id)
            && waits_for(before[id], h, p) by {
            assert(indexed(old(self).read_reqs@, (h, p), id) <==> before.contains_key(id)
                && waits_for(before[id], h, p));
        }
        let mut k: usize = 0;
        while k < ids.len()
            invariant
                k <= ids.len(),
                h == i.0@,
                p == i.1,
                old(self).wf(),
                before == old(self).attrs@,
                ids@.no_duplicates(),
                forall|id: SliceId| #[trigger]
                    ids@.contains(id) <==> before.contains_key(id) && waits_for(before[id], h, p),
                self.cur_id == old(self).cur_id,
                self.torrents@ == old(self).torrents@,
                self.read_reqs@ == old(self).read_reqs@.remove((h, p)),
                self.attrs@.dom() =~= before.dom(),
                forall|id: SliceId| #[trigger]
                    self.attrs@.contains_key(id) ==> self.attrs@[id] == if ids@.take(
                        k as int,
                    ).contains(id) {
                        without_req(before[id])
                    } else {
                        before[id]
                    },
                r@.len() == k,
                forall|j: int|
                    0 <= j < k ==> #[trigger] r@[j] == (
                        ids@[j],
                        p,
                        (before[ids@[j]].read_req->0).1,
                    ),
            decreases ids.len() - k,
        {
            let slice_id: SliceId = ids[k];
            let ghost attrs = self.attrs@;
            proof {
                assert(ids@.contains(slice_id));
                assert(!ids@.take(k as int).contains(slice_id));
                assert(attrs.contains_key(slice_id));
            }
            let attr = match self.attrs.get_mut(slice_id) {
                Some(attr) => attr,
                None => {
                    return Err(SliceDbError::InconsistentDb);
                },
            };
            let (piece_i, req) = match attr.read_req.take() {
                Some(a) => a,
                None => {
                    return Err(SliceDbError::InconsistentDb);
                },
            };
            r.push((slice_id, piece_i, req));
            proof {
                assert(self.attrs@.dom() =~= before.dom());
                assert forall|id: SliceId| #[trigger] self.attrs@.contains_key(id) implies self.attrs@[id]
                    == if ids@.take(k + 1).contains(id) {
                    without_req(before[id])
                } else {
                    before[id]
                } by {
                    assert(attrs.contains_key(id));
                    assert(ids@.take(k + 1) =~= ids@.take(k as int).push(slice_id));
                    if ids@.take(k as int).contains(id) {
                        let j = ids@.take(k as int).index_of(id);
                        assert(ids@.take(k + 1)[j] == id);
                    }
                    assert(ids@.take(k + 1)[k as int] == slice_id);
                }
            }
            k += 1;
        }
        proof {
            assert(ids@.take(k as int) =~= ids@);
            assert(self.attrs@ =~= reqs_removed(before, h, p));
            assert forall|hash: Seq<u8>, id: SliceId| #[trigger]
                indexed(self.torrents@, hash, id) <==> self.attrs@.contains_key(id)
                    && self.attrs@[id].info_hash@ == hash by {
                assert(indexed(self.torrents@, hash, id) <==> indexed(
                    old(self).torrents@,
                    hash,
                    id,
                ));
            }
            assert forall|hash: Seq<u8>, q: u32, id: SliceId| #[trigger]
                indexed(self.read_reqs@, (hash, q), id) <==> self.attrs@.contains_key(id)
                    && waits_for(self.attrs@[id], hash, q) by {
                assert(indexed(self.read_reqs@, (hash, q), id) <==> indexed(
                    old(self).read_reqs@,
                    (hash, q),
                    id,
                ) && !(hash == h && q == p));
            }
            assert(is_reqs(before, h, p, r@)) by {
                assert forall|j: int| 0 <= j < r@.len() implies req_of(
                    before,
                    h,
                    p,
                    #[trigger] r@[j],
                ) by {
                    assert(ids@.contains(ids@[j]));
                }
                assert forall|id: SliceId| before.contains_key(id) && waits_for(before[id], h, p)
                    implies exists|j: int|
                    0 <= j < r@.len() && (#[trigger] r@[j]).0 == id by {
                    assert(ids@.contains(id));
                    let j = ids@.index_of(id);
                    assert(r@[j].0 == id);
                }
            }
        }
        Ok(r)
    }

    /// The payloads of the slices of a torrent, in an order that is not told.
    pub fn payloads(&self, info_hash: &InfoHash) -> (res: Vec<Range<u64>>)
        requires
            self.wf(),
        ensures
            torrent_payloads(self.attrs(), info_hash@, res@),
    {
        let ids: Vec<SliceId> = match self.torrents.get(info_hash) {
            Some(ids) => ids.to_vec(),
            None => Vec::new(),
        };
        let ghost h = info_hash@;
        let ghost payloads = ids@.map_values(|id: SliceId| self.attrs()[id].payload);
        proof {
            assert forall|id: SliceId| #[trigger] ids@.contains(id) <==> self.attrs@.contains_key(
                id,
            ) && self.attrs@[id].info_hash@ == h by {
                assert(indexed(self.torrents@, h, id) <==> self.attrs@.contains_key(id)
                    && self.attrs@[id].info_hash@ == h);
            }
            assert(lists_torrent(self.attrs(), h, ids@));
        }
        let mut res: Vec<Range<u64>> = Vec::new();
        let mut k: usize = 0;
        while k < ids.len()
            invariant
                k <= ids.len(),
                forall|id: SliceId| #[trigger]
                    ids@.contains(id) <==> self.attrs@.contains_key(id)
                        && self.attrs@[id].info_hash@ == h,
                payloads == ids@.map_values(|id: SliceId| self.attrs()[id].payload),
                res@ =~= payloads.take(k as int),
            decreases ids.len() - k,
        {
            assert(ids@.contains(ids@[k as int]));
            match self.attrs.get(ids[k]) {
                Some(attr) => {
                    res.push(attr.payload.start..attr.payload.end);
                },
                None => {},
            }
            k += 1;
        }
        assert(payloads.take(k as int) =~= payloads);
        res
    }
}

/// The attributes `attrs` without the read requests that wait for the piece `piece_i`.
pub open spec fn reqs_removed(
    attrs: Map<SliceId, Attr>,
    info_hash: Seq<u8>,
    piece_i: u32,
) -> Map<SliceId, Attr> {
    attrs.map_values(
        |attr: Attr|
            if waits_for(attr, info_hash, piece_i) {
                without_req(attr)
            } else {
                attr
            },
    )
}

/// Whether `entry` is the read request of a slice that waits for the piece `piece_i`.
pub open spec fn req_of(
    attrs: Map<SliceId, Attr>,
    info_hash: Seq<u8>,
    piece_i: u32,
    entry: (SliceId, u32, ReadSliceReq),
) -> bool {
    &&& attrs.contains_key(entry.0)
    &&& waits_for(attrs[entry.0], info_hash, piece_i)
    &&& attrs[entry.0].read_req == Some((entry.1, entry.2))
}

/// Whether `reqs` are the read requests that wait for the piece `piece_i`, every request once,
/// in some order.
pub open spec fn is_reqs(
    attrs: Map<SliceId, Attr>,
    info_hash: Seq<u8>,
    piece_i: u32,
    reqs: Seq<(SliceId, u32, ReadSliceReq)>,
) -> bool {
    &&& forall|j: int| 0 <= j < reqs.len() ==> req_of(attrs, info_hash, piece_i, #[trigger] reqs[j])
    &&& forall|j: int, k: int|
        0 <= j < k < reqs.len() ==> (#[trigger] reqs[j]).0 != (#[trigger] reqs[k]).0
    &&& forall|id: SliceId| #[trigger]
        attrs.contains_key(id) && waits_for(attrs[id], info_hash, piece_i) ==> exists|j: int|
            0 <= j < reqs.len() && (#[trigger] reqs[j]).0 == id
}

} // verus!

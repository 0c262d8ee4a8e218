//! The batched detail loader. Detail lookups issued while one operation
//! resolves are collected with set semantics, dispatched as exactly one
//! batched gateway call, and redistributed by identifier. An instance is
//! strictly request-scoped: construct one per inbound operation and discard
//! it with the operation, so no state survives across requests.

use vstd::prelude::*;

use crate::error::ApiError;
use crate::persistence::{spec_batch, Catalog, DetailsEntityModel};
use crate::planet::{spec_details_of_entity, Details, DetailsModel, Planet};

verus! {

/// Mathematical shape of the loader: the collected key set, the
/// redistributed results, and whether the batch has been dispatched.
#[verifier::ext_equal]
pub struct LoaderModel {
    pub keys: Seq<i32>,
    pub results: Seq<(i32, DetailsModel)>,
    pub loaded: bool,
}

/// Collects the detail requests of one operation and serves them from a
/// single batched lookup.
pub struct DetailsBatchLoader {
    keys: Vec<i32>,
    results: Vec<(i32, Details)>,
    loaded: bool,
}

/// The redistributed view of collected result pairs.
pub open spec fn results_view(v: Seq<(i32, Details)>) -> Seq<(i32, DetailsModel)> {
    v.map_values(|p: (i32, Details)| (p.0, p.1@))
}

/// One gateway response row as the details record it denotes.
pub open spec fn conv_pair(p: (i32, DetailsEntityModel)) -> (i32, DetailsModel) {
    (p.0, spec_details_of_entity(p.1))
}

pub open spec fn conv_pairs(s: Seq<(i32, DetailsEntityModel)>) -> Seq<(i32, DetailsModel)> {
    s.map_values(|p: (i32, DetailsEntityModel)| conv_pair(p))
}

impl View for DetailsBatchLoader {
    type V = LoaderModel;

    closed spec fn view(&self) -> LoaderModel {
        LoaderModel {
            keys: self.keys@,
            results: results_view(self.results@),
            loaded: self.loaded,
        }
    }
}

/// No identifier occurs twice.
pub open spec fn no_dups(keys: Seq<i32>) -> bool {
    forall|i: int, j: int| 0 <= i < j < keys.len() ==> keys[i] != keys[j]
}

pub open spec fn loader_wf(m: LoaderModel) -> bool {
    no_dups(m.keys)
}

/// The redistributed form of a gateway batch response: each returned row as
/// the details record it denotes.
pub open spec fn batch_results(rows: Seq<DetailsEntityModel>, keys: Seq<i32>) -> Seq<
    (i32, DetailsModel),
> {
    conv_pairs(spec_batch(rows, keys))
}

/// The first redistributed result for an identifier.
pub open spec fn find_result(rs: Seq<(i32, DetailsModel)>, id: i32) -> Option<DetailsModel>
    decreases rs.len(),
{
    if rs.len() == 0 {
        None
    } else if rs[0].0 == id {
        Some(rs[0].1)
    } else {
        find_result(rs.skip(1), id)
    }
}

impl DetailsBatchLoader {
    /// A fresh loader for one operation: nothing collected, nothing loaded.
    /// Never reuse an instance across operations; batching, not caching, is
    /// the goal, and a kept instance would serve stale reads.
    pub fn new() -> (r: DetailsBatchLoader)
        ensures
            r@.keys == Seq::<i32>::empty(),
            r@.results == Seq::<(i32, DetailsModel)>::empty(),
            !r@.loaded,
            loader_wf(r@),
    {
        let r = DetailsBatchLoader { keys: Vec::new(), results: Vec::new(), loaded: false };
        proof {
            assert(r@.results =~= Seq::<(i32, DetailsModel)>::empty());
        }
        r
    }

    /// Record one detail request. Duplicates coalesce: the key set grows only
    /// when the identifier is new.
    pub fn request(&mut self, id: i32)
        requires
            !old(self)@.loaded,
            loader_wf(old(self)@),
        ensures
            !final(self)@.loaded,
            loader_wf(final(self)@),
            final(self)@.results == old(self)@.results,
            final(self)@.keys == (if old(self)@.keys.contains(id) {
                old(self)@.keys
            } else {
                old(self)@.keys.push(id)
            }),
            final(self)@.keys.contains(id),
    {
        let ghost keys0 = self.keys@;
        let mut i: usize = 0;
        while i < self.keys.len()
            invariant
                0 <= i <= self.keys@.len(),
                self@ == old(self)@,
                !self@.loaded,
                loader_wf(self@),
                self.keys@ == keys0,
                forall|j: int| 0 <= j < i ==> self.keys@[j] != id,
            decreases self.keys@.len() - i,
        {
            if self.keys[i] == id {
                proof {
                    assert(self@.keys.contains(id));
                }
                return ;
            }
            i += 1;
        }
        proof {
            assert(!keys0.contains(id));
        }
        self.keys.push(id);
        proof {
            assert(self@.keys == keys0.push(id));
            assert(self@.keys[self@.keys.len() - 1] == id);
            assert(self@.keys.contains(id));
            assert forall|a: int, b: int|
                0 <= a < b < self@.keys.len() implies self@.keys[a] != self@.keys[b] by {
                if b == self@.keys.len() - 1 {
                    if keys0[a] == id {
                        assert(keys0.contains(id));
                    }
                }
            }
        }
    }

    /// Dispatch the batch: exactly one gateway call for the whole collected
    /// key set, however many requests were recorded and however many repeated
    /// an identifier. The catalog's call counter rises by precisely one.
    pub fn load(&mut self, repo: &mut Catalog)
        requires
            !old(self)@.loaded,
            loader_wf(old(self)@),
            old(repo)@.batch_calls < u64::MAX,
        ensures
            final(self)@.loaded,
            loader_wf(final(self)@),
            final(self)@.keys == old(self)@.keys,
            final(self)@.results == batch_results(old(repo)@.details, old(self)@.keys),
            final(repo)@.planets == old(repo)@.planets,
            final(repo)@.details == old(repo)@.details,
            final(repo)@.next_id == old(repo)@.next_id,
            final(repo)@.batch_calls == old(repo)@.batch_calls + 1,
    {
        let resp = repo.batch_get_details(&self.keys);
        let ghost rows = old(repo)@.details;
        let mut out: Vec<(i32, Details)> = Vec::new();
        let mut i: usize = 0;
        while i < resp.len()
            invariant
                0 <= i <= resp@.len(),
                crate::persistence::pairs_view(resp@) == spec_batch(rows, old(self)@.keys),
                results_view(out@) == conv_pairs(spec_batch(rows, old(self)@.keys).take(i as int)),
            decreases resp@.len() - i,
        {
            let ghost out0 = out@;
            let k = resp[i].0;
            let d = Details::from_entity(&resp[i].1);
            out.push((k, d));
            proof {
                let batch = spec_batch(rows, old(self)@.keys);
                assert(crate::persistence::pairs_view(resp@)[i as int] == (
                    resp@[i as int].0,
                    resp@[i as int].1@,
                ));
                assert(batch[i as int] == (resp@[i as int].0, resp@[i as int].1@));
                assert(out@ == out0.push((k, d)));
                assert(crate::persistence::pairs_view(resp@).len() == resp@.len());
                assert(batch.len() == resp@.len());
                assert(results_view(out0) == conv_pairs(batch.take(i as int)));
                assert(results_view(out0).len() == out0.len());
                assert(conv_pairs(batch.take(i as int)).len() == batch.take(i as int).len());
                assert(out0.len() == i);
                assert forall|j: int|
                    0 <= j < i + 1 implies results_view(out@)[j] == conv_pairs(
                    batch.take(i + 1),
                )[j] by {
                    assert(results_view(out@)[j] == (out@[j].0, out@[j].1@));
                    assert(conv_pairs(batch.take(i + 1))[j] == conv_pair(batch.take(i + 1)[j]));
                    assert(batch.take(i + 1)[j] == batch[j]);
                    if j < i {
                        assert(out@[j] == out0[j]);
                        assert(results_view(out0)[j] == (out0[j].0, out0[j].1@));
                        assert(results_view(out0)[j] == conv_pairs(batch.take(i as int))[j]);
                        assert(conv_pairs(batch.take(i as int))[j] == conv_pair(
                            batch.take(i as int)[j],
                        ));
                        assert(batch.take(i as int)[j] == batch[j]);
                    } else {
                        assert(out@[j] == (k, d));
                    }
                }
                assert(results_view(out@) =~= conv_pairs(batch.take(i + 1)));
            }
            i += 1;
        }
        proof {
            assert(spec_batch(rows, old(self)@.keys).take(resp@.len() as int) =~= spec_batch(
                rows,
                old(self)@.keys,
            ));
        }
        self.results = out;
        self.loaded = true;
        proof {
            assert(self@.results =~= batch_results(rows, old(self)@.keys));
        }
    }

    /// Serve one collected request from the dispatched batch. An identifier
    /// the gateway returned no row for fails alone, with `DetailsNotFound`,
    /// without disturbing its siblings in the batch.
    pub fn get(&self, id: i32) -> (r: Result<Details, ApiError>)
        requires
            self@.loaded,
        ensures
            match r {
                Ok(d) => find_result(self@.results, id) == Some(d@),
                Err(e) => find_result(self@.results, id) is None && e
                    == ApiError::DetailsNotFound(id),
            },
    {
        let ghost rs = self@.results;
        proof {
            assert(rs.skip(0) =~= rs);
        }
        let mut i: usize = 0;
        while i < self.results.len()
            invariant
                0 <= i <= self.results@.len(),
                rs == self@.results,
                find_result(rs, id) == find_result(rs.skip(i as int), id),
            decreases self.results@.len() - i,
        {
            proof {
                assert(rs.skip(i as int)[0] == rs[i as int]);
                assert(rs.skip(i as int).skip(1) =~= rs.skip(i + 1));
            }
            if self.results[i].0 == id {
                let d = self.results[i].1.duplicate();
                proof {
                    assert(rs[i as int] == (self.results@[i as int].0, self.results@[i as int].1@));
                }
                return Ok(d);
            }
            i += 1;
        }
        proof {
            assert(rs.skip(rs.len() as int) =~= Seq::<(i32, DetailsModel)>::empty());
        }
        Err(ApiError::DetailsNotFound(id))
    }
}

/// What one collected request is served: for a requested identifier, the
/// batch response holds exactly the catalog's detail row for it, converted;
/// an identifier without a detail row yields nothing.
pub proof fn lemma_batch_lookup(rows: Seq<DetailsEntityModel>, keys: Seq<i32>, id: i32)
    ensures
        find_result(batch_results(rows, keys), id) == (if keys.contains(id) {
            match crate::persistence::find_details(rows, id) {
                Some(d) => Some(spec_details_of_entity(d)),
                None => None::<DetailsModel>,
            }
        } else {
            None::<DetailsModel>
        }),
    decreases keys.len(),
{
    if keys.len() == 0 {
        assert(batch_results(rows, keys) =~= Seq::<(i32, DetailsModel)>::empty());
    } else {
        let k0 = keys[0];
        let head = match crate::persistence::find_details(rows, k0) {
            Some(d) => seq![(k0, d)],
            None => Seq::<(i32, DetailsEntityModel)>::empty(),
        };
        assert(spec_batch(rows, keys) == head + spec_batch(rows, keys.skip(1)));
        assert(batch_results(rows, keys) =~= conv_pairs(head) + batch_results(
            rows,
            keys.skip(1),
        ));
        lemma_batch_lookup(rows, keys.skip(1), id);
        if keys.contains(id) {
            let w = choose|w: int| 0 <= w < keys.len() && keys[w] == id;
            if w > 0 {
                assert(keys.skip(1)[w - 1] == id);
                assert(keys.skip(1).contains(id));
            }
        }
        if keys.skip(1).contains(id) {
            let w = choose|w: int| 0 <= w < keys.skip(1).len() && keys.skip(1)[w] == id;
            assert(keys[w + 1] == id);
            assert(keys.contains(id));
        }
        match crate::persistence::find_details(rows, k0) {
            Some(d) => {
                assert(batch_results(rows, keys)[0] == (k0, spec_details_of_entity(d)));
                assert(batch_results(rows, keys).skip(1) =~= batch_results(rows, keys.skip(1)));
                if k0 == id {
                    assert(keys.contains(id));
                } else {
                }
            },
            None => {
                assert(batch_results(rows, keys) =~= batch_results(rows, keys.skip(1)));
                if k0 == id {
                    assert(keys.contains(id));
                }
            },
        }
    }
}

impl Planet {
    /// Ask for this body's details. The request joins the operation's batch;
    /// the answer is served by the loader after the batch is dispatched.
    pub fn details(&self, loader: &mut DetailsBatchLoader)
        requires
            !old(loader)@.loaded,
            loader_wf(old(loader)@),
        ensures
            !final(loader)@.loaded,
            loader_wf(final(loader)@),
            final(loader)@.results == old(loader)@.results,
            final(loader)@.keys == (if old(loader)@.keys.contains(self@.id) {
                old(loader)@.keys
            } else {
                old(loader)@.keys.push(self@.id)
            }),
            final(loader)@.keys.contains(self@.id),
    {
        loader.request(self.id)
    }
}

} // verus!

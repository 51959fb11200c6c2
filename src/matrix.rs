//! The whole contact matrix: the contig catalog shared by every resolution,
//! and the resolutions themselves, which are only ever added.
use vstd::prelude::*;

use crate::builders::{find_name, find_tig};
use crate::errors::MatrixResolutionError;
use crate::res_group::ResGroup;
use crate::selector::Selector2D;

verus! {

/// Resolutions of `groups`, in order.
pub open spec fn resolutions_of(groups: Seq<ResGroup>) -> Seq<u32> {
    groups.map_values(|g: ResGroup| g.resolution())
}

/// The contig catalog and the resolutions built over it.
#[derive(Debug)]
pub struct Matrix {
    resolutions: Vec<ResGroup>,
    tig_order: Vec<String>,
    tig_lengths: Vec<u64>,
}

impl Matrix {
    pub closed spec fn groups(&self) -> Seq<ResGroup> {
        self.resolutions@
    }

    pub closed spec fn names(&self) -> Seq<String> {
        self.tig_order@
    }

    pub closed spec fn lengths(&self) -> Seq<u64> {
        self.tig_lengths@
    }

    /// One name per length, each resolution once, every group well formed.
    pub open spec fn wf(&self) -> bool {
        &&& self.names().len() == self.lengths().len()
        &&& forall|i: int, j: int|
            0 <= i < j < self.groups().len() ==> (#[trigger] self.groups()[i]).resolution() != (
            #[trigger] self.groups()[j]).resolution()
        &&& forall|i: int| 0 <= i < self.groups().len() ==> (#[trigger] self.groups()[i]).wf()
    }

    /// Position of resolution `res` among the groups, if present.
    pub open spec fn position_of(&self, res: u32) -> Option<int> {
        if exists|i: int| 0 <= i < self.groups().len() && (#[trigger] self.groups()[i]).resolution() == res {
            Some(choose|i: int| 0 <= i < self.groups().len() && (#[trigger] self.groups()[i]).resolution() == res)
        } else {
            None
        }
    }

    /// A matrix over the contigs `(name, length)`, with no resolution yet.
    pub fn new(tigs: &Vec<(String, u64)>) -> (r: Matrix)
        ensures
            r.wf(),
            r.groups().len() == 0,
            r.names().len() == tigs@.len(),
            forall|i: int| 0 <= i < tigs@.len() ==> #[trigger] r.names()[i] == tigs@[i].0 && r.lengths()[i] == tigs@[i].1,
    {
        let mut names: Vec<String> = Vec::new();
        let mut lengths: Vec<u64> = Vec::new();
        let mut i: usize = 0;
        while i < tigs.len()
            invariant
                i <= tigs@.len(),
                names@.len() == i && lengths@.len() == i,
                forall|k: int| 0 <= k < i ==> #[trigger] names@[k] == tigs@[k].0,
                forall|k: int| 0 <= k < i ==> #[trigger] lengths@[k] == tigs@[k].1,
            decreases tigs@.len() - i,
        {
            names.push(tigs[i].0.clone());
            lengths.push(tigs[i].1);
            i += 1;
        }
        Matrix { resolutions: Vec::new(), tig_order: names, tig_lengths: lengths }
    }

    /// Position of resolution `res`, if present.
    fn find_resolution(&self, res: u32) -> (r: Option<usize>)
        requires
            self.wf(),
        ensures
            r.is_some() == self.position_of(res).is_some(),
            r.is_some() ==> r.unwrap() < self.groups().len() && self.groups()[r.unwrap() as int].resolution() == res,
    {
        let mut i: usize = 0;
        while i < self.resolutions.len()
            invariant
                i <= self.groups().len(),
                forall|k: int| 0 <= k < i ==> (#[trigger] self.groups()[k]).resolution() != res,
            decreases self.groups().len() - i,
        {
            if self.resolutions[i].get_resolution() == res {
                return Some(i);
            }
            i += 1;
        }
        None
    }

    /// Adds a resolution; `false`, changing nothing, if it is already there.
    pub fn register_new_resolution(&mut self, group: ResGroup) -> (r: bool)
        requires
            old(self).wf(),
            group.wf(),
        ensures
            final(self).wf(),
            final(self).names() == old(self).names(),
            final(self).lengths() == old(self).lengths(),
            r == old(self).position_of(group.resolution()).is_none(),
            r ==> final(self).groups() == old(self).groups().push(group),
            !r ==> final(self).groups() == old(self).groups(),
    {
        if self.find_resolution(group.get_resolution()).is_some() {
            return false;
        }
        let ghost before = self.resolutions@;
        let ghost g = group;
        proof {
            assert forall|k: int| 0 <= k < before.len() implies (#[trigger] before[k]).resolution()
                != g.resolution() by {
                if before[k].resolution() == g.resolution() {
                    assert(self.groups()[k].resolution() == g.resolution());
                }
            }
        }
        self.resolutions.push(group);
        proof {
            assert(self.groups()[before.len() as int] == g);
            assert forall|i: int, j: int|
                0 <= i < j < self.groups().len() implies (#[trigger] self.groups()[i]).resolution() != (
                #[trigger] self.groups()[j]).resolution() by {
                if j < before.len() {
                    assert(self.groups()[i] == before[i] && self.groups()[j] == before[j]);
                } else {
                    assert(self.groups()[i] == before[i]);
                    assert(self.groups()[j] == g);
                }
            }
            assert forall|i: int| 0 <= i < self.groups().len() implies (#[trigger] self.groups()[i]).wf() by {
                if i < before.len() {
                    assert(self.groups()[i] == before[i]);
                } else {
                    assert(self.groups()[i] == g);
                }
            }
        }
        true
    }

    /// The group of resolution `res`, or an unknown-resolution error.
    pub fn get_local_matrix(&self, res: u32) -> (r: Result<&ResGroup, MatrixResolutionError>)
        requires
            self.wf(),
        ensures
            r is Err <==> self.position_of(res).is_none(),
            r is Ok ==> r->Ok_0.resolution() == res && self.groups().contains(*r->Ok_0),
    {
        match self.find_resolution(res) {
            Some(i) => Ok(&self.resolutions[i]),
            None => Err(MatrixResolutionError),
        }
    }

    /// Makes resolution `res` query-ready with `selector` (built over that
    /// resolution's bins), unless it already is; an unknown resolution is an
    /// error.
    pub fn init_selector(&mut self, res: u32, selector: Selector2D) -> (r: Result<(), MatrixResolutionError>)
        requires
            old(self).wf(),
            selector.wf(),
            forall|i: int|
                0 <= i < old(self).groups().len() && (#[trigger] old(self).groups()[i]).resolution() == res
                    ==> selector.n_bins() == old(self).groups()[i].n_bins(),
        ensures
            final(self).wf(),
            r is Err <==> old(self).position_of(res).is_none(),
            final(self).groups().len() == old(self).groups().len(),
            resolutions_of(final(self).groups()) == resolutions_of(old(self).groups()),
            final(self).names() == old(self).names(),
            final(self).lengths() == old(self).lengths(),
            forall|i: int|
                0 <= i < final(self).groups().len() ==> {
                    let g0 = old(self).groups()[i];
                    let g1 = #[trigger] final(self).groups()[i];
                    &&& g1.resolution() == g0.resolution()
                    &&& g1.n_bins() == g0.n_bins()
                    &&& g1.n_pixels() == g0.n_pixels()
                    &&& g1.engine() == if g0.resolution() == res && g0.engine().is_none() {
                        Some(selector)
                    } else {
                        g0.engine()
                    }
                },
    {
        match self.find_resolution(res) {
            Some(i) => {
                let ghost before = self.resolutions@;
                let mut group = self.resolutions.remove(i);
                group.init_selector(selector);
                self.resolutions.insert(i, group);
                proof {
                    assert forall|k: int| 0 <= k < self.groups().len() implies (#[trigger] self.groups()[k]).resolution()
                        == before[k].resolution() && self.groups()[k].wf() by {
                        if k != i {
                            assert(self.groups()[k] == before[k]);
                        }
                    }
                    assert forall|k: int| 0 <= k < self.groups().len() implies {
                        let g0 = before[k];
                        let g1 = #[trigger] self.groups()[k];
                        &&& g1.resolution() == g0.resolution()
                        &&& g1.n_bins() == g0.n_bins()
                        &&& g1.n_pixels() == g0.n_pixels()
                        &&& g1.engine() == if g0.resolution() == res && g0.engine().is_none() {
                            Some(selector)
                        } else {
                            g0.engine()
                        }
                    } by {
                        if k != i {
                            assert(self.groups()[k] == before[k]);
                            assert(before[k].resolution() != before[i as int].resolution());
                        }
                    }
                    assert(resolutions_of(self.groups()) =~= resolutions_of(before));
                }
                Ok(())
            },
            None => Err(MatrixResolutionError),
        }
    }

    /// The resolutions, in the order they were added.
    pub fn get_resolutions(&self) -> (r: Vec<u32>)
        ensures
            r@ == resolutions_of(self.groups()),
    {
        let mut v: Vec<u32> = Vec::new();
        let mut i: usize = 0;
        while i < self.resolutions.len()
            invariant
                i <= self.groups().len(),
                v@ == resolutions_of(self.groups().subrange(0, i as int)),
            decreases self.groups().len() - i,
        {
            v.push(self.resolutions[i].get_resolution());
            i += 1;
            proof {
                assert(v@ =~= resolutions_of(self.groups().subrange(0, i as int)));
            }
        }
        assert(self.groups().subrange(0, i as int) =~= self.groups());
        v
    }

    /// Number of contigs.
    pub fn get_n_chroms(&self) -> (r: usize)
        ensures
            r == self.names().len(),
    {
        self.tig_order.len()
    }

    /// Contig id of `name`, first match in catalog order.
    pub fn get_tig_id(&self, name: &String) -> (r: Option<usize>)
        ensures
            r.is_some() == find_name(self.names(), name@, 0).is_some(),
            r.is_some() ==> r.unwrap() == find_name(self.names(), name@, 0).unwrap(),
    {
        find_tig(&self.tig_order, name)
    }

    /// Name of contig `id`.
    pub fn get_tig_name(&self, id: usize) -> (r: Option<&String>)
        ensures
            r.is_some() == (id < self.names().len()),
            r.is_some() ==> *r.unwrap() == self.names()[id as int],
    {
        if id < self.tig_order.len() {
            Some(&self.tig_order[id])
        } else {
            None
        }
    }

    /// Contig names in catalog order.
    pub fn tig_order_view(&self) -> (r: &Vec<String>)
        ensures
            r@ == self.names(),
    {
        &self.tig_order
    }

    /// Contig lengths in catalog order.
    pub fn lengths_view(&self) -> (r: &Vec<u64>)
        ensures
            r@ == self.lengths(),
    {
        &self.tig_lengths
    }
}

} // verus!

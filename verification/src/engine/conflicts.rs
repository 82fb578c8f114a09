//! Finding the files that several layers of one overlay mount provide.

use crate::engine::winnow::ConflictDetail;
use crate::text::{append_new, contains_string, extend_new, owned, selected, views};
use vstd::prelude::*;

verus! {

/// What one lower directory holds: the module it comes from, and the
/// files and symlinks in it, by their paths within the partition.
pub struct LayerListing {
    pub module_id: String,
    pub files: Vec<String>,
}

pub ghost struct ListingModel {
    pub module_id: Seq<char>,
    pub files: Seq<Seq<char>>,
}

impl View for LayerListing {
    type V = ListingModel;

    open spec fn view(&self) -> ListingModel {
        ListingModel { module_id: self.module_id@, files: views(self.files@) }
    }
}

pub open spec fn listing_models(v: Seq<LayerListing>) -> Seq<ListingModel> {
    Seq::new(v.len(), |i: int| v[i]@)
}

/// The modules, among the first `k` layers, that hold `path`, in the order
/// of the layers.
pub open spec fn contenders(layers: Seq<ListingModel>, path: Seq<char>, k: int) -> Seq<Seq<char>>
    decreases k,
{
    if k <= 0 || k > layers.len() {
        Seq::empty()
    } else if layers[k - 1].files.contains(path) {
        contenders(layers, path, k - 1).push(layers[k - 1].module_id)
    } else {
        contenders(layers, path, k - 1)
    }
}

/// The paths that the first `k` layers hold, each once, in the order they
/// are first met.
pub open spec fn distinct_paths(layers: Seq<ListingModel>, k: int) -> Seq<Seq<char>>
    decreases k,
{
    if k <= 0 || k > layers.len() {
        Seq::empty()
    } else {
        append_new(
            distinct_paths(layers, k - 1),
            layers[k - 1].files,
            layers[k - 1].files.len() as int,
        )
    }
}

/// Whether each path is contested: at least two layers hold it.
pub open spec fn contested(layers: Seq<ListingModel>, paths: Seq<Seq<char>>) -> Seq<bool> {
    Seq::new(paths.len(), |i: int| contenders(layers, paths[i], layers.len() as int).len() >= 2)
}

/// The contested paths, in the order they are first met.
pub open spec fn conflict_paths(layers: Seq<ListingModel>) -> Seq<Seq<char>> {
    let paths = distinct_paths(layers, layers.len() as int);
    selected(paths, contested(layers, paths), paths.len() as int)
}

pub open spec fn detail_paths(v: Seq<ConflictDetail>) -> Seq<Seq<char>> {
    Seq::new(v.len(), |i: int| v[i].relative_path@)
}

/// The modules that hold `path`, in the order of the layers.
pub fn find_contenders(layers: &Vec<LayerListing>, path: &String) -> (r: Vec<String>)
    ensures
        views(r@) == contenders(listing_models(layers@), path@, layers.len() as int),
{
    let mut r: Vec<String> = Vec::new();
    let mut i: usize = 0;
    assert(views(r@) =~= Seq::<Seq<char>>::empty());
    while i < layers.len()
        invariant
            i <= layers.len(),
            views(r@) == contenders(listing_models(layers@), path@, i as int),
        decreases layers.len() - i,
    {
        assert(listing_models(layers@)[i as int] == layers[i as int]@);
        if contains_string(&layers[i].files, path) {
            let ghost before = views(r@);
            r.push(layers[i].module_id.clone());
            assert(views(r@) =~= before.push(layers[i as int].module_id@));
        }
        i = i + 1;
    }
    r
}

/// Finds the contested files of one partition: the paths that at least
/// two of its layers hold as a file or symlink. Each such path is reported
/// once, in the order the paths are first met, with the modules that hold
/// it in the order of the layers.
pub fn analyze_conflicts(partition: &str, layers: &Vec<LayerListing>) -> (r: Vec<ConflictDetail>)
    ensures
        detail_paths(r@) == conflict_paths(listing_models(layers@)),
        forall|i: int|
            0 <= i < r.len() ==> {
                let c = #[trigger] r[i];
                &&& c.partition@ == partition@
                &&& views(c.contending_modules@) == contenders(
                    listing_models(layers@),
                    c.relative_path@,
                    layers.len() as int,
                )
                &&& c.contending_modules.len() >= 2
            },
{
    let ghost lm = listing_models(layers@);
    let mut paths: Vec<String> = Vec::new();
    let mut i: usize = 0;
    assert(views(paths@) =~= Seq::<Seq<char>>::empty());
    while i < layers.len()
        invariant
            i <= layers.len(),
            lm == listing_models(layers@),
            views(paths@) == distinct_paths(lm, i as int),
        decreases layers.len() - i,
    {
        assert(lm[i as int] == layers[i as int]@);
        extend_new(&mut paths, &layers[i].files);
        i = i + 1;
    }
    let ghost pv = views(paths@);
    let ghost flags = contested(lm, pv);
    let mut r: Vec<ConflictDetail> = Vec::new();
    let mut j: usize = 0;
    assert(detail_paths(r@) =~= Seq::<Seq<char>>::empty());
    while j < paths.len()
        invariant
            j <= paths.len(),
            lm == listing_models(layers@),
            pv == views(paths@),
            flags == contested(lm, pv),
            detail_paths(r@) == selected(pv, flags, j as int),
            forall|k: int|
                0 <= k < r.len() ==> {
                    let c = #[trigger] r[k];
                    &&& c.partition@ == partition@
                    &&& views(c.contending_modules@) == contenders(
                        lm,
                        c.relative_path@,
                        layers.len() as int,
                    )
                    &&& c.contending_modules.len() >= 2
                },
        decreases paths.len() - j,
    {
        assert(pv[j as int] == paths[j as int]@);
        let who = find_contenders(layers, &paths[j]);
        assert(views(who@).len() == who.len());
        if who.len() >= 2 {
            let ghost before = detail_paths(r@);
            r.push(
                ConflictDetail {
                    partition: owned(partition),
                    relative_path: paths[j].clone(),
                    contending_modules: who,
                },
            );
            assert(detail_paths(r@) =~= before.push(pv[j as int]));
        }
        j = j + 1;
    }
    r
}

} // verus!

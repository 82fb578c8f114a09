//! The plain overlay path: every enabled module's partition directories,
//! stacked partition by partition.

pub mod utils;

use crate::defs::SYSTEM_RW_DIR;
use crate::paths::{join_path, spec_join};
use crate::text::{append_new, contains_string, extend_new, owned, views};
use vstd::prelude::*;
use vstd::string::StringExecFns;

verus! {

/// One entry of the module directory.
pub struct ModuleDir {
    pub path: String,
    /// The last component of the path, where it has one.
    pub name: Option<String>,
    pub is_dir: bool,
    /// The module holds the marker that disables it.
    pub disabled: bool,
    /// The module holds the marker that keeps it from being mounted.
    pub skip_mount: bool,
    /// The partition directories of the module that are directories.
    pub partitions: Vec<String>,
}

pub ghost struct ModuleDirModel {
    pub path: Seq<char>,
    pub name: Option<Seq<char>>,
    pub is_dir: bool,
    pub disabled: bool,
    pub skip_mount: bool,
    pub partitions: Seq<Seq<char>>,
}

impl View for ModuleDir {
    type V = ModuleDirModel;

    open spec fn view(&self) -> ModuleDirModel {
        ModuleDirModel {
            path: self.path@,
            name: match self.name {
                Some(n) => Some(n@),
                None => None,
            },
            is_dir: self.is_dir,
            disabled: self.disabled,
            skip_mount: self.skip_mount,
            partitions: views(self.partitions@),
        }
    }
}

pub open spec fn module_dir_models(v: Seq<ModuleDir>) -> Seq<ModuleDirModel> {
    Seq::new(v.len(), |i: int| v[i]@)
}

/// The lower directories gathered for one partition.
pub struct PartitionLayers {
    pub partition: String,
    pub lowerdirs: Vec<String>,
}

pub ghost struct PartitionLayersModel {
    pub partition: Seq<char>,
    pub lowerdirs: Seq<Seq<char>>,
}

impl View for PartitionLayers {
    type V = PartitionLayersModel;

    open spec fn view(&self) -> PartitionLayersModel {
        PartitionLayersModel { partition: self.partition@, lowerdirs: views(self.lowerdirs@) }
    }
}

/// Whether a module takes part: it is a directory without the skip marker,
/// and, where it has a name, it is enabled and among the wanted modules.
pub open spec fn takes_part(m: ModuleDirModel, wanted: Seq<Seq<char>>) -> bool {
    &&& m.is_dir
    &&& !m.skip_mount
    &&& (m.name matches Some(n) ==> !m.disabled && wanted.contains(n))
}

/// The partitions, besides `system`, whose directories are gathered.
pub open spec fn gathered_partitions() -> Seq<Seq<char>> {
    seq!["vendor"@, "product"@, "system_ext"@, "odm"@, "oem"@]
}

/// The lower directories of a partition from the first `k` modules.
pub open spec fn module_layers(
    mods: Seq<ModuleDirModel>,
    wanted: Seq<Seq<char>>,
    part: Seq<char>,
    k: int,
) -> Seq<Seq<char>>
    decreases k,
{
    if k <= 0 || k > mods.len() {
        Seq::empty()
    } else if takes_part(mods[k - 1], wanted) && mods[k - 1].partitions.contains(part) {
        module_layers(mods, wanted, part, k - 1).push(spec_join(mods[k - 1].path, part))
    } else {
        module_layers(mods, wanted, part, k - 1)
    }
}

/// The lower directories of one listed partition: those of the modules for
/// `system` and the gathered partitions, none for any other.
pub open spec fn layers_of(
    mods: Seq<ModuleDirModel>,
    wanted: Seq<Seq<char>>,
    part: Seq<char>,
) -> Seq<Seq<char>> {
    if part == "system"@ || gathered_partitions().contains(part) {
        module_layers(mods, wanted, part, mods.len() as int)
    } else {
        Seq::empty()
    }
}

/// The partitions in the order they are mounted: `system` first, then the
/// gathered ones, then the extra ones that are not listed yet.
pub open spec fn listed_partitions(extra: Seq<Seq<char>>) -> Seq<Seq<char>> {
    append_new(seq!["system"@] + gathered_partitions(), extra, extra.len() as int)
}

/// The lower directories of the modules for one partition.
pub fn gather_layers(modules: &Vec<ModuleDir>, module_id: &Vec<String>, part: &String) -> (r:
    Vec<String>)
    ensures
        views(r@) == module_layers(
            module_dir_models(modules@),
            views(module_id@),
            part@,
            modules.len() as int,
        ),
{
    let mut r: Vec<String> = Vec::new();
    let mut i: usize = 0;
    assert(views(r@) =~= Seq::<Seq<char>>::empty());
    while i < modules.len()
        invariant
            i <= modules.len(),
            views(r@) == module_layers(
                module_dir_models(modules@),
                views(module_id@),
                part@,
                i as int,
            ),
        decreases modules.len() - i,
    {
        let m = &modules[i];
        assert(module_dir_models(modules@)[i as int] == m@);
        let named_ok = match &m.name {
            Some(n) => !m.disabled && contains_string(module_id, n),
            None => true,
        };
        if m.is_dir && !m.skip_mount && named_ok && contains_string(&m.partitions, part) {
            let ghost before = views(r@);
            r.push(join_path(m.path.as_str(), part.as_str()));
            assert(views(r@) =~= before.push(spec_join(m.path@, part@)));
        }
        i = i + 1;
    }
    r
}

/// Gathers, partition by partition, the directories that the wanted
/// modules hold: `system` first, then `vendor`, `product`, `system_ext`,
/// `odm` and `oem`, then the extra partitions, which get no directories.
pub fn mount_systemlessly(
    module_id: &Vec<String>,
    extra_partitions: &Vec<String>,
    modules: &Vec<ModuleDir>,
) -> (r: Vec<PartitionLayers>)
    ensures
        r.len() == listed_partitions(views(extra_partitions@)).len(),
        forall|i: int|
            0 <= i < r.len() ==> (#[trigger] r[i])@ == (PartitionLayersModel {
                partition: listed_partitions(views(extra_partitions@))[i],
                lowerdirs: layers_of(
                    module_dir_models(modules@),
                    views(module_id@),
                    listed_partitions(views(extra_partitions@))[i],
                ),
            }),
{
    let mut names: Vec<String> = Vec::new();
    names.push(owned("system"));
    names.push(owned("vendor"));
    names.push(owned("product"));
    names.push(owned("system_ext"));
    names.push(owned("odm"));
    names.push(owned("oem"));
    assert(views(names@) =~= seq!["system"@] + gathered_partitions());
    extend_new(&mut names, extra_partitions);
    let ghost listed = listed_partitions(views(extra_partitions@));
    let ghost mods = module_dir_models(modules@);
    let ghost wanted = views(module_id@);
    let system = owned("system");
    let vendor = owned("vendor");
    let product = owned("product");
    let system_ext = owned("system_ext");
    let odm = owned("odm");
    let oem = owned("oem");
    let mut r: Vec<PartitionLayers> = Vec::new();
    let mut i: usize = 0;
    while i < names.len()
        invariant
            i <= names.len(),
            views(names@) == listed,
            mods == module_dir_models(modules@),
            wanted == views(module_id@),
            system@ == "system"@,
            vendor@ == "vendor"@,
            product@ == "product"@,
            system_ext@ == "system_ext"@,
            odm@ == "odm"@,
            oem@ == "oem"@,
            r.len() == i,
            forall|k: int|
                0 <= k < i ==> (#[trigger] r[k])@ == (PartitionLayersModel {
                    partition: listed[k],
                    lowerdirs: layers_of(mods, wanted, listed[k]),
                }),
        decreases names.len() - i,
    {
        let name = &names[i];
        assert(listed[i as int] == name@);
        let known = *name == system || *name == vendor || *name == product || *name == system_ext
            || *name == odm || *name == oem;
        proof {
            let g = gathered_partitions();
            assert(g[0] == "vendor"@ && g[1] == "product"@ && g[2] == "system_ext"@ && g[3]
                == "odm"@ && g[4] == "oem"@);
            if known && name@ != "system"@ {
                assert(g.contains(name@));
            }
        }
        let lowerdirs = if known {
            gather_layers(modules, module_id, name)
        } else {
            Vec::new()
        };
        assert(!known ==> views(lowerdirs@) =~= Seq::<Seq<char>>::empty());
        r.push(PartitionLayers { partition: name.clone(), lowerdirs });
        i = i + 1;
    }
    r
}

/// One partition's overlay mount on the plain path.
pub struct PartitionMount {
    /// `/` and the partition's name.
    pub partition: String,
    pub lowerdirs: Vec<String>,
    pub workdir: Option<String>,
    pub upperdir: Option<String>,
}

pub open spec fn opt_text(s: Option<String>) -> Option<Seq<char>> {
    match s {
        Some(p) => Some(p@),
        None => None,
    }
}

/// Decides whether a partition is mounted: not without lower directories,
/// and not where the partition is a symlink, for then it is covered by the
/// mount of what it points into. The writable layer is named where the
/// staging area exists.
pub fn mount_partition(
    partition_name: &str,
    lowerdir: &Vec<String>,
    is_symlink: bool,
    staging_exists: bool,
) -> (r: Option<PartitionMount>)
    ensures
        r is Some <==> (lowerdir.len() > 0 && !is_symlink),
        r matches Some(m) ==> {
            &&& m.partition@ == seq!['/'] + partition_name@
            &&& views(m.lowerdirs@) == views(lowerdir@)
            &&& opt_text(m.workdir) == (if staging_exists {
                Some(spec_join(spec_join(SYSTEM_RW_DIR@, partition_name@), "workdir"@))
            } else {
                None
            })
            &&& opt_text(m.upperdir) == (if staging_exists {
                Some(spec_join(spec_join(SYSTEM_RW_DIR@, partition_name@), "upperdir"@))
            } else {
                None
            })
        },
{
    if lowerdir.len() == 0 || is_symlink {
        return None;
    }
    proof {
        reveal_strlit("/");
        assert("/"@ =~= seq!['/']);
    }
    let mut partition = owned("/");
    partition.append(partition_name);
    let (workdir, upperdir) = if staging_exists {
        let base = join_path(SYSTEM_RW_DIR, partition_name);
        (Some(join_path(base.as_str(), "workdir")), Some(join_path(base.as_str(), "upperdir")))
    } else {
        (None, None)
    };
    Some(
        PartitionMount {
            partition,
            lowerdirs: crate::text::clone_strings(lowerdir),
            workdir,
            upperdir,
        },
    )
}

} // verus!

//! What an overlay mount is asked to do: the layers it stacks, within the
//! kernel's limits, and the option strings that carry them.

use crate::paths::{path_starts_with, spec_starts_with};
use crate::text::{
    byte_len, byte_len_capped, joined, lemma_byte_len_concat, owned, sorted_unique,
    spec_without_first, strictly_sorted, to_chars, views, without_first,
};
use procfs::FromBufRead;
use vstd::prelude::*;
use vstd::string::StringExecFns;

verus! {

/// Largest number of lower directories in one overlay mount.
pub const MAX_LOWERDIRS: usize = 128;

/// Largest number of bytes of the joined lower directories.
pub const MAX_LOWERDIR_BYTES: usize = 3000;

/// The separator between lower directories.
pub open spec fn colon() -> Seq<char> {
    seq![':']
}

/// Bytes of the lower directories joined by colons.
pub open spec fn joined_bytes(layers: Seq<Seq<char>>) -> nat {
    byte_len(joined(layers, colon()))
}

/// Whether the first `n` layers can be mounted together.
pub open spec fn fits(layers: Seq<Seq<char>>, n: int) -> bool {
    &&& 0 <= n <= layers.len()
    &&& n <= MAX_LOWERDIRS
    &&& joined_bytes(layers.subrange(0, n)) <= MAX_LOWERDIR_BYTES
}

/// The largest number of leading layers, up to `k`, that fit.
pub open spec fn cap_len(layers: Seq<Seq<char>>, k: int) -> int
    decreases k,
{
    if k <= 0 {
        0
    } else if fits(layers, k) {
        k
    } else {
        cap_len(layers, k - 1)
    }
}

/// The layers cut from the tail until they fit.
pub open spec fn capped(layers: Seq<Seq<char>>) -> Seq<Seq<char>> {
    layers.subrange(0, cap_len(layers, layers.len() as int))
}

/// One more layer costs its own bytes, and a colon after the first.
pub proof fn lemma_joined_bytes_step(layers: Seq<Seq<char>>, n: int)
    requires
        0 <= n < layers.len(),
    ensures
        joined_bytes(layers.subrange(0, n + 1)) == joined_bytes(layers.subrange(0, n)) + byte_len(
            layers[n],
        ) + (if n == 0 {
            0int
        } else {
            1int
        }),
{
    let next = layers.subrange(0, n + 1);
    let prev = layers.subrange(0, n);
    assert(next.drop_last() =~= prev);
    assert(next.last() == layers[n]);
    assert(colon().drop_last() =~= Seq::<char>::empty());
    assert(byte_len(Seq::<char>::empty()) == 0);
    assert(colon().last() == ':');
    assert(byte_len(colon()) == 1);
    if n == 0 {
        assert(joined(next, colon()) == layers[0]);
        assert(joined(prev, colon()) =~= Seq::<char>::empty());
    } else {
        assert(joined(next, colon()) == joined(prev, colon()) + colon() + layers[n]);
        lemma_byte_len_concat(joined(prev, colon()) + colon(), layers[n]);
        lemma_byte_len_concat(joined(prev, colon()), colon());
    }
}

/// More layers never take fewer bytes.
pub proof fn lemma_joined_bytes_grow(layers: Seq<Seq<char>>, n: int, m: int)
    requires
        0 <= n <= m <= layers.len(),
    ensures
        joined_bytes(layers.subrange(0, n)) <= joined_bytes(layers.subrange(0, m)),
    decreases m - n,
{
    if n < m {
        lemma_joined_bytes_grow(layers, n, m - 1);
        lemma_joined_bytes_step(layers, m - 1);
    }
}

/// Where `n` layers fit and no larger number up to `k` does, the cap is `n`.
pub proof fn lemma_cap_len(layers: Seq<Seq<char>>, n: int, k: int)
    requires
        0 <= n <= k <= layers.len(),
        fits(layers, n),
        n < layers.len() ==> !fits(layers, n + 1),
    ensures
        cap_len(layers, k) == n,
    decreases k - n,
{
    if n < k {
        if fits(layers, k) {
            lemma_joined_bytes_grow(layers, n + 1, k);
        }
        lemma_cap_len(layers, n, k - 1);
    }
}

/// What is cut is cut from the tail, and what stays fits.
pub proof fn lemma_capped(layers: Seq<Seq<char>>)
    ensures
        capped(layers).len() <= MAX_LOWERDIRS,
        capped(layers).len() <= layers.len(),
        joined_bytes(capped(layers)) <= MAX_LOWERDIR_BYTES,
        capped(layers) == layers.subrange(0, capped(layers).len() as int),
        fits(layers, layers.len() as int) ==> capped(layers) == layers,
{
    lemma_cap_len_fits(layers, layers.len() as int);
    assert(layers.subrange(0, layers.len() as int) =~= layers);
}

proof fn lemma_cap_len_fits(layers: Seq<Seq<char>>, k: int)
    requires
        0 <= k <= layers.len(),
    ensures
        0 <= cap_len(layers, k) <= k,
        fits(layers, cap_len(layers, k)),
    decreases k,
{
    if k <= 0 {
        assert(layers.subrange(0, 0) =~= Seq::<Seq<char>>::empty());
        assert(joined(Seq::<Seq<char>>::empty(), colon()) =~= Seq::<char>::empty());
    } else if !fits(layers, k) {
        lemma_cap_len_fits(layers, k - 1);
    }
}

/// Of 129 layers of which 128 fit, exactly the last one is cut.
pub proof fn lemma_one_over_the_limit(layers: Seq<Seq<char>>)
    requires
        layers.len() == MAX_LOWERDIRS + 1,
        joined_bytes(layers.drop_last()) <= MAX_LOWERDIR_BYTES,
    ensures
        capped(layers) == layers.drop_last(),
{
    assert(layers.drop_last() =~= layers.subrange(0, 128));
    lemma_cap_len(layers, 128, 129);
}

/// Cuts lower directories from the tail until at most 128 are left and
/// their colon-joined length is at most 3000 bytes. The flag says whether
/// anything was cut.
pub fn truncate_lowerdirs(lowerdirs: &Vec<String>) -> (r: (Vec<String>, bool))
    ensures
        views(r.0@) == capped(views(lowerdirs@)),
        r.1 == (r.0.len() < lowerdirs.len()),
{
    let ghost layers = views(lowerdirs@);
    let mut out: Vec<String> = Vec::new();
    let mut total: usize = 0;
    let mut n: usize = 0;
    let mut full = false;
    proof {
        assert(layers.subrange(0, 0) =~= Seq::<Seq<char>>::empty());
        assert(joined(Seq::<Seq<char>>::empty(), colon()) =~= Seq::<char>::empty());
    }
    while n < lowerdirs.len() && !full
        invariant
            n <= lowerdirs.len(),
            layers == views(lowerdirs@),
            out.len() == n,
            views(out@) == layers.subrange(0, n as int),
            total == joined_bytes(layers.subrange(0, n as int)),
            fits(layers, n as int),
            full ==> n < lowerdirs.len() && !fits(layers, n + 1),
        decreases lowerdirs.len() - n + (if full { 0int } else { 1int }),
    {
        proof {
            lemma_joined_bytes_step(layers, n as int);
            assert(layers[n as int] == lowerdirs[n as int]@);
        }
        if n >= MAX_LOWERDIRS {
            full = true;
        } else {
            let sep: usize = if n == 0 {
                0
            } else {
                1
            };
            let room: usize = MAX_LOWERDIR_BYTES - total;
            let len = byte_len_capped(&lowerdirs[n], MAX_LOWERDIR_BYTES);
            if len + sep > room {
                full = true;
            } else {
                total = total + len + sep;
                let ghost before = views(out@);
                out.push(lowerdirs[n].clone());
                assert(views(out@) =~= before.push(lowerdirs[n as int]@));
                assert(views(out@) =~= layers.subrange(0, n + 1));
                n = n + 1;
            }
        }
    }
    proof {
        lemma_cap_len(layers, n as int, layers.len() as int);
    }
    let cut = n < lowerdirs.len();
    (out, cut)
}


/// The text with a backslash before every comma.
pub open spec fn escaped(s: Seq<char>) -> Seq<char>
    decreases s.len(),
{
    if s.len() == 0 {
        Seq::empty()
    } else if s.last() == ',' {
        escaped(s.drop_last()) + seq!['\\', ',']
    } else {
        escaped(s.drop_last()).push(s.last())
    }
}

/// Puts a backslash before every comma, as the option string of the old
/// mount call needs it.
pub fn escape_commas(s: &str) -> (r: String)
    ensures
        r@ == escaped(s@),
{
    let chars = to_chars(s);
    let mut r = String::new();
    let mut i: usize = 0;
    assert(chars@.subrange(0, 0) =~= Seq::<char>::empty());
    while i < chars.len()
        invariant
            i <= chars.len(),
            chars@ == s@,
            r@ == escaped(chars@.subrange(0, i as int)),
        decreases chars.len() - i,
    {
        proof {
            let next = chars@.subrange(0, i + 1);
            assert(next.drop_last() =~= chars@.subrange(0, i as int));
            assert(next.last() == chars@[i as int]);
        }
        let ghost before = r@;
        if chars[i] == ',' {
            r.push('\\');
            r.push(',');
            assert(r@ =~= before + seq!['\\', ',']);
        } else {
            r.push(chars[i]);
        }
        i = i + 1;
    }
    assert(chars@.subrange(0, chars.len() as int) =~= chars@);
    r
}

/// What one overlay mount is made with.
pub struct OverlayMount {
    /// Where the overlay goes.
    pub dest: String,
    /// The lower directories, joined by colons, the stock directory last.
    pub lowerdir: String,
    /// The writable layer and its scratch directory, where both exist.
    pub upperdir: Option<String>,
    pub workdir: Option<String>,
    /// The name under which the mount shows up.
    pub source: String,
    /// The option string for the old mount call, commas in paths escaped.
    pub legacy_data: String,
    /// Whether lower directories were cut to fit the limits.
    pub truncated: bool,
}

/// The lower directories of a mount: the modules' layers, cut to fit, then
/// the stock directory below them all.
pub open spec fn lowerdir_config(lower_dirs: Seq<Seq<char>>, lowest: Seq<char>) -> Seq<char> {
    joined(capped(lower_dirs).push(lowest), colon())
}

/// The option string of the old mount call.
pub open spec fn legacy_options(
    lowerdir: Seq<char>,
    upperdir: Option<Seq<char>>,
    workdir: Option<Seq<char>>,
) -> Seq<char> {
    if upperdir is Some && workdir is Some {
        "lowerdir="@ + escaped(lowerdir) + ",upperdir="@ + escaped(upperdir->0) + ",workdir="@
            + escaped(workdir->0)
    } else {
        "lowerdir="@ + escaped(lowerdir)
    }
}

/// The writable layer is used only where both of its directories are named
/// and exist.
pub open spec fn writable(
    upperdir: Option<Seq<char>>,
    workdir: Option<Seq<char>>,
    upper_exists: bool,
    work_exists: bool,
) -> bool {
    upperdir is Some && workdir is Some && upper_exists && work_exists
}

pub open spec fn opt_str(s: Option<String>) -> Option<Seq<char>> {
    match s {
        Some(p) => Some(p@),
        None => None,
    }
}

pub ghost struct OverlayMountModel {
    pub dest: Seq<char>,
    pub lowerdir: Seq<char>,
    pub upperdir: Option<Seq<char>>,
    pub workdir: Option<Seq<char>>,
    pub source: Seq<char>,
    pub legacy_data: Seq<char>,
    pub truncated: bool,
}

impl View for OverlayMount {
    type V = OverlayMountModel;

    open spec fn view(&self) -> OverlayMountModel {
        OverlayMountModel {
            dest: self.dest@,
            lowerdir: self.lowerdir@,
            upperdir: opt_str(self.upperdir),
            workdir: opt_str(self.workdir),
            source: self.source@,
            legacy_data: self.legacy_data@,
            truncated: self.truncated,
        }
    }
}

/// What an overlay mount over `dest` is made with: the layers of the
/// modules, cut from the tail to the limits, over the stock directory
/// `lowest`; the writable layer where both of its directories are named
/// and exist.
pub open spec fn overlay_mount(
    lower_dirs: Seq<Seq<char>>,
    lowest: Seq<char>,
    upperdir: Option<Seq<char>>,
    workdir: Option<Seq<char>>,
    upper_exists: bool,
    work_exists: bool,
    dest: Seq<char>,
    source: Seq<char>,
) -> OverlayMountModel {
    let lowerdir = lowerdir_config(lower_dirs, lowest);
    let rw = writable(upperdir, workdir, upper_exists, work_exists);
    let upper = if rw {
        upperdir
    } else {
        None
    };
    let work = if rw {
        workdir
    } else {
        None
    };
    OverlayMountModel {
        dest,
        lowerdir,
        upperdir: upper,
        workdir: work,
        source,
        legacy_data: legacy_options(lowerdir, upper, work),
        truncated: capped(lower_dirs).len() < lower_dirs.len(),
    }
}

/// Works out what an overlay mount over `dest` is made with.
pub fn mount_overlayfs(
    lower_dirs: &Vec<String>,
    lowest: &str,
    upperdir: Option<String>,
    workdir: Option<String>,
    upper_exists: bool,
    work_exists: bool,
    dest: &str,
    source: &str,
) -> (r: OverlayMount)
    ensures
        r@ == overlay_mount(
            views(lower_dirs@),
            lowest@,
            opt_str(upperdir),
            opt_str(workdir),
            upper_exists,
            work_exists,
            dest@,
            source@,
        ),
{
    let (mut layers, truncated) = truncate_lowerdirs(lower_dirs);
    let ghost kept = views(layers@);
    layers.push(owned(lowest));
    assert(views(layers@) =~= kept.push(lowest@));
    proof {
        reveal_strlit(":");
        assert(":"@ =~= colon());
    }
    let lowerdir = crate::text::join(&layers, ":");
    let both = upper_exists && work_exists;
    let (upper, work) = match (upperdir, workdir) {
        (Some(u), Some(w)) => if both {
            (Some(u), Some(w))
        } else {
            (None, None)
        },
        _ => (None, None),
    };
    let mut data = owned("lowerdir=");
    data.append(escape_commas(lowerdir.as_str()).as_str());
    match (&upper, &work) {
        (Some(u), Some(w)) => {
            data.append(",upperdir=");
            data.append(escape_commas(u.as_str()).as_str());
            data.append(",workdir=");
            data.append(escape_commas(w.as_str()).as_str());
        },
        _ => {},
    }
    OverlayMount {
        dest: owned(dest),
        lowerdir,
        upperdir: upper,
        workdir: work,
        source: owned(source),
        legacy_data: data,
        truncated,
    }
}

/// The mount points listed in the text of a `mountinfo` file, in the order
/// of its lines; nothing where the text cannot be parsed.
pub uninterp spec fn spec_mount_points(mountinfo: Seq<char>) -> Option<Seq<Seq<char>>>;

/// `procfs::process::MountInfos::from_buf_read`, which parses the text of
/// a `mountinfo` file line by line, and of each record its mount point.
/// The result depends on the text alone; the contract names it and claims
/// nothing more.
#[verifier::external_body]
pub(crate) fn parse_mount_points(mountinfo: &str) -> (r: Option<Vec<String>>)
    ensures
        match r {
            Some(v) => spec_mount_points(mountinfo@) == Some(views(v@)),
            None => spec_mount_points(mountinfo@) is None,
        },
{
    match procfs::process::MountInfos::from_buf_read(mountinfo.as_bytes()) {
        Ok(infos) => Some(
            infos.0.iter().map(|m| m.mount_point.to_string_lossy().into_owned()).collect(),
        ),
        Err(_) => None,
    }
}

/// A mount point strictly beneath `root`: `root` is a prefix of it, by
/// whole components, and it is no prefix of `root`.
pub open spec fn beneath(mount_point: Seq<char>, root: Seq<char>) -> bool {
    spec_starts_with(mount_point, root) && !spec_starts_with(root, mount_point)
}

/// The mount points strictly beneath `root`, out of a list of mount
/// points: sorted, each once.
pub fn child_mounts_of(mount_points: &Vec<String>, root: &str) -> (r: Vec<String>)
    ensures
        strictly_sorted(views(r@)),
        forall|t: Seq<char>|
            #[trigger] views(r@).contains(t) <==> (views(mount_points@).contains(t) && beneath(
                t,
                root@,
            )),
{
    let mut below: Vec<String> = Vec::new();
    let mut i: usize = 0;
    while i < mount_points.len()
        invariant
            i <= mount_points.len(),
            forall|t: Seq<char>|
                #[trigger] views(below@).contains(t) <==> (views(mount_points@).subrange(
                    0,
                    i as int,
                ).contains(t) && beneath(t, root@)),
        decreases mount_points.len() - i,
    {
        let ghost b0 = views(below@);
        let ghost head = views(mount_points@).subrange(0, i as int);
        let ghost x = mount_points[i as int]@;
        let mp = &mount_points[i];
        if path_starts_with(mp.as_str(), root) && !path_starts_with(root, mp.as_str()) {
            below.push(mp.clone());
            assert(views(below@) =~= b0.push(x));
        }
        proof {
            assert(views(mount_points@).subrange(0, i + 1) =~= head.push(x));
            assert forall|t: Seq<char>|
                #[trigger] views(below@).contains(t) <==> (views(mount_points@).subrange(
                    0,
                    i + 1,
                ).contains(t) && beneath(t, root@)) by {
                assert(b0.contains(t) <==> (head.contains(t) && beneath(t, root@)));
                crate::engine::executor::lemma_push_contains(head, x, t);
                crate::engine::executor::lemma_push_contains(b0, x, t);
            }
        }
        i = i + 1;
    }
    assert(views(mount_points@).subrange(0, mount_points.len() as int) =~= views(mount_points@));
    let r = sorted_unique(&below);
    assert forall|t: Seq<char>| #[trigger]
        views(r@).contains(t) <==> (views(mount_points@).contains(t) && beneath(t, root@)) by {
        assert(views(r@).contains(t) <==> views(below@).contains(t));
    }
    r
}

/// The mounts that an overlay over `root` would hide: the mount points of
/// the `mountinfo` text that lie strictly beneath `root`, sorted, each
/// once. Nothing where the text cannot be parsed.
pub fn child_mounts(mountinfo: &str, root: &str) -> (r: Option<Vec<String>>)
    ensures
        r is Some <==> spec_mount_points(mountinfo@) is Some,
        r matches Some(v) ==> strictly_sorted(views(v@)) && forall|t: Seq<char>|
            #[trigger] views(v@).contains(t) <==> (spec_mount_points(mountinfo@)->0.contains(t)
                && beneath(t, root@)),
{
    match parse_mount_points(mountinfo) {
        Some(points) => Some(child_mounts_of(&points, root)),
        None => None,
    }
}


/// What a module holds at the place of a child mount.
#[derive(PartialEq, Eq, Clone, Copy, Debug, Structural)]
pub enum LowerKind {
    Missing,
    Directory,
    /// Something that is no directory.
    Other,
}

/// What is done for a mount that the overlay would hide.
pub enum ChildAction {
    /// Bind the stock directory back over the mount point.
    Bind { from: String, to: String },
    /// Stack the modules' directories over the stock directory at the mount
    /// point; where that fails, bind as above.
    Overlay(OverlayMount),
    /// Leave the mount point alone.
    Abandon,
}

pub ghost enum ChildActionModel {
    Bind { from: Seq<char>, to: Seq<char> },
    Overlay(OverlayMountModel),
    Abandon,
}

impl View for ChildAction {
    type V = ChildActionModel;

    open spec fn view(&self) -> ChildActionModel {
        match *self {
            ChildAction::Bind { from, to } => ChildActionModel::Bind { from: from@, to: to@ },
            ChildAction::Overlay(m) => ChildActionModel::Overlay(m@),
            ChildAction::Abandon => ChildActionModel::Abandon,
        }
    }
}

/// What the module number `i` holds at the place; a module that was not
/// looked at counts as holding nothing.
pub open spec fn kind_at(probes: Seq<LowerKind>, i: int) -> LowerKind {
    if 0 <= i < probes.len() {
        probes[i]
    } else {
        LowerKind::Missing
    }
}

/// The directories that the first `k` modules hold at the place.
pub open spec fn child_layers(
    module_roots: Seq<Seq<char>>,
    relative: Seq<char>,
    probes: Seq<LowerKind>,
    k: int,
) -> Seq<Seq<char>>
    decreases k,
{
    if k <= 0 || k > module_roots.len() {
        Seq::empty()
    } else if kind_at(probes, k - 1) == LowerKind::Directory {
        child_layers(module_roots, relative, probes, k - 1).push(module_roots[k - 1] + relative)
    } else {
        child_layers(module_roots, relative, probes, k - 1)
    }
}

/// What is done for one child mount. Where no module holds anything at
/// the place, the stock directory is bound back, if it is a directory.
/// Where a module holds something, the stock entry has to be a directory
/// and so has every module's entry; then the modules' directories are
/// stacked over the stock directory. In every other case the mount point
/// is left alone.
pub open spec fn child_action(
    mount_point: Seq<char>,
    relative: Seq<char>,
    module_roots: Seq<Seq<char>>,
    stock_root: Seq<char>,
    probes: Seq<LowerKind>,
    stock_is_dir: bool,
    source: Seq<char>,
) -> ChildActionModel {
    let n = module_roots.len() as int;
    let present = exists|i: int| 0 <= i < n && #[trigger] kind_at(probes, i) != LowerKind::Missing;
    let blocked = exists|i: int| 0 <= i < n && #[trigger] kind_at(probes, i) == LowerKind::Other;
    if !stock_is_dir {
        ChildActionModel::Abandon
    } else if !present {
        ChildActionModel::Bind { from: stock_root, to: mount_point }
    } else if blocked {
        ChildActionModel::Abandon
    } else {
        ChildActionModel::Overlay(
            overlay_mount(
                child_layers(module_roots, relative, probes, n),
                stock_root,
                None,
                None,
                false,
                false,
                mount_point,
                source,
            ),
        )
    }
}

/// Decides what is done for one mount that the overlay over its parent
/// hides.
pub fn mount_overlay_child(
    mount_point: &str,
    relative: &str,
    module_roots: &Vec<String>,
    stock_root: &str,
    probes: &Vec<LowerKind>,
    stock_is_dir: bool,
    source: &str,
) -> (r: ChildAction)
    ensures
        r@ == child_action(
            mount_point@,
            relative@,
            views(module_roots@),
            stock_root@,
            probes@,
            stock_is_dir,
            source@,
        ),
{
    if !stock_is_dir {
        return ChildAction::Abandon;
    }
    let ghost roots = views(module_roots@);
    let mut layers: Vec<String> = Vec::new();
    let mut present = false;
    let mut blocked = false;
    let mut i: usize = 0;
    assert(views(layers@) =~= Seq::<Seq<char>>::empty());
    while i < module_roots.len()
        invariant
            i <= module_roots.len(),
            roots == views(module_roots@),
            views(layers@) == child_layers(roots, relative@, probes@, i as int),
            present == exists|k: int|
                0 <= k < i && #[trigger] kind_at(probes@, k) != LowerKind::Missing,
            blocked == exists|k: int|
                0 <= k < i && #[trigger] kind_at(probes@, k) == LowerKind::Other,
        decreases module_roots.len() - i,
    {
        let kind = if i < probes.len() {
            probes[i]
        } else {
            LowerKind::Missing
        };
        assert(kind == kind_at(probes@, i as int));
        assert(roots[i as int] == module_roots[i as int]@);
        match kind {
            LowerKind::Missing => {},
            LowerKind::Directory => {
                present = true;
                let ghost l0 = views(layers@);
                let mut layer = module_roots[i].clone();
                layer.append(relative);
                layers.push(layer);
                assert(views(layers@) =~= l0.push(roots[i as int] + relative@));
            },
            LowerKind::Other => {
                present = true;
                blocked = true;
            },
        }
        i = i + 1;
    }
    if !present {
        return ChildAction::Bind { from: owned(stock_root), to: owned(mount_point) };
    }
    if blocked {
        return ChildAction::Abandon;
    }
    ChildAction::Overlay(
        mount_overlayfs(&layers, stock_root, None, None, false, false, mount_point, source),
    )
}

/// One mount that an overlay would hide, and where its stock content is
/// reached once the overlay is in place.
pub struct ChildMount {
    pub mount_point: String,
    /// The mount point without the overlay's target in front.
    pub relative: String,
    /// The stock content, seen from the overlay's target: `.` and the
    /// relative path.
    pub stock_child: String,
}

/// What mounting an overlay over a partition takes: the mount itself, and
/// the mounts beneath it that have to be made visible again afterwards.
pub struct OverlaySession {
    pub root: OverlayMount,
    pub children: Vec<ChildMount>,
}

pub open spec fn child_points(v: Seq<ChildMount>) -> Seq<Seq<char>> {
    Seq::new(v.len(), |i: int| v[i].mount_point@)
}

/// Why an overlay mount could not be prepared.
#[derive(PartialEq, Eq, Clone, Copy, Debug, Structural)]
pub enum OverlayError {
    /// The list of mounts could not be read.
    MountInfo,
}

/// Prepares the overlay mount over `root`: what the mount is made with,
/// and, from the text of the `mountinfo` file, the mounts strictly beneath
/// `root`, sorted, each once, with the place of its stock content.
pub fn mount_overlay(
    root: &str,
    module_roots: &Vec<String>,
    workdir: Option<String>,
    upperdir: Option<String>,
    upper_exists: bool,
    work_exists: bool,
    mountinfo: &str,
    source: &str,
) -> (r: Result<OverlaySession, OverlayError>)
    ensures
        r is Err <==> spec_mount_points(mountinfo@) is None,
        r matches Ok(s) ==> {
            &&& s.root@ == overlay_mount(
                views(module_roots@),
                root@,
                opt_str(upperdir),
                opt_str(workdir),
                upper_exists,
                work_exists,
                root@,
                source@,
            )
            &&& strictly_sorted(child_points(s.children@))
            &&& forall|t: Seq<char>| #[trigger]
                child_points(s.children@).contains(t) <==> (spec_mount_points(
                    mountinfo@,
                )->0.contains(t) && beneath(t, root@))
            &&& forall|i: int|
                0 <= i < s.children.len() ==> (#[trigger] s.children[i]).relative@
                    == spec_without_first(s.children[i].mount_point@, root@)
                    && s.children[i].stock_child@ == seq!['.'] + s.children[i].relative@
        },
{
    let points = match child_mounts(mountinfo, root) {
        Some(p) => p,
        None => {
            return Err(OverlayError::MountInfo);
        },
    };
    let mut children: Vec<ChildMount> = Vec::new();
    let mut i: usize = 0;
    proof {
        reveal_strlit(".");
        assert("."@ =~= seq!['.']);
    }
    while i < points.len()
        invariant
            i <= points.len(),
            "."@ == seq!['.'],
            children.len() == i,
            forall|k: int| 0 <= k < i ==> (#[trigger] children[k]).mount_point@ == points[k]@,
            forall|k: int|
                0 <= k < i ==> (#[trigger] children[k]).relative@ == spec_without_first(
                    children[k].mount_point@,
                    root@,
                ) && children[k].stock_child@ == seq!['.'] + children[k].relative@,
        decreases points.len() - i,
    {
        let relative = without_first(points[i].as_str(), root);
        let mut stock_child = owned(".");
        stock_child.append(relative.as_str());
        children.push(ChildMount { mount_point: points[i].clone(), relative, stock_child });
        i = i + 1;
    }
    assert(child_points(children@) =~= views(points@));
    let root_mount = mount_overlayfs(
        module_roots,
        root,
        upperdir,
        workdir,
        upper_exists,
        work_exists,
        root,
        source,
    );
    Ok(OverlaySession { root: root_mount, children })
}

} // verus!

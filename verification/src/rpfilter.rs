//! The reverse-path-filter stage: for every interface exposing an
//! `rp_filter` control, back the current value up under the backup root and
//! overwrite the live control with `"0"`. The stage is computed here as a
//! plan of filesystem actions — the backup write always precedes the live
//! overwrite — and the caller performs the reads and writes.

use vstd::prelude::*;
use vstd::string::*;

verus! {

/// One interface as the caller found it: its directory name under the
/// kernel configuration tree, and the content of its `rp_filter` control if
/// that control exists.
pub struct InterfaceState {
    pub name: String,
    pub rp_filter: Option<String>,
}

impl View for InterfaceState {
    type V = (Seq<char>, Option<Seq<char>>);

    open spec fn view(&self) -> (Seq<char>, Option<Seq<char>>) {
        (
            self.name@,
            match self.rp_filter {
                Some(v) => Some(v@),
                None => None,
            },
        )
    }
}

/// One filesystem action of the plan: make a directory (and its parents),
/// or write a file with the given content, truncating what was there.
pub enum FsAction {
    EnsureDir(String),
    WriteFile(String, String),
}

impl View for FsAction {
    type V = (Seq<char>, Option<Seq<char>>);

    open spec fn view(&self) -> (Seq<char>, Option<Seq<char>>) {
        match self {
            FsAction::EnsureDir(p) => (p@, None),
            FsAction::WriteFile(p, c) => (p@, Some(c@)),
        }
    }
}

/// The directory the backups live under.
pub open spec fn backup_root() -> Seq<char> {
    "/tmp/home/root/backup"@
}

/// The kernel configuration tree holding one directory per interface.
pub open spec fn conf_root() -> Seq<char> {
    "/proc/sys/net/ipv4/conf"@
}

/// The backup directory of one interface.
pub open spec fn backup_dir_path(name: Seq<char>) -> Seq<char> {
    backup_root() + seq!['/'] + name
}

/// The backup file holding one interface's saved `rp_filter` value.
pub open spec fn backup_file_path(name: Seq<char>) -> Seq<char> {
    backup_dir_path(name) + "/rp_filter"@
}

/// The live `rp_filter` control of one interface.
pub open spec fn live_path(name: Seq<char>) -> Seq<char> {
    conf_root() + seq!['/'] + name + "/rp_filter"@
}

/// The actions for one interface: nothing when it has no `rp_filter`
/// control; otherwise its backup directory, the backup write holding the
/// old value, then the overwrite of the live control with `"0"`.
pub open spec fn iface_actions(iface: (Seq<char>, Option<Seq<char>>)) -> Seq<
    (Seq<char>, Option<Seq<char>>),
> {
    match iface.1 {
        None => Seq::empty(),
        Some(v) => seq![
            (backup_dir_path(iface.0), None),
            (backup_file_path(iface.0), Some(v)),
            (live_path(iface.0), Some("0"@)),
        ],
    }
}

/// The actions for a list of interfaces, in order.
pub open spec fn rp_plan_spec(ifaces: Seq<(Seq<char>, Option<Seq<char>>)>) -> Seq<
    (Seq<char>, Option<Seq<char>>),
>
    decreases ifaces.len(),
{
    if ifaces.len() == 0 {
        Seq::empty()
    } else {
        iface_actions(ifaces[0]) + rp_plan_spec(ifaces.drop_first())
    }
}

/// What a file holds after the actions ran in order: the content of the
/// last write to that path, if any.
pub open spec fn fs_after(
    acts: Seq<(Seq<char>, Option<Seq<char>>)>,
    path: Seq<char>,
) -> Option<Seq<char>>
    decreases acts.len(),
{
    if acts.len() == 0 {
        None
    } else if acts.last().1 is Some && acts.last().0 == path {
        acts.last().1
    } else {
        fs_after(acts.drop_last(), path)
    }
}

/// The whole stage as one action sequence: the backup root directory
/// first, then every interface's actions in order.
pub open spec fn full_rp_plan(ifaces: Seq<(Seq<char>, Option<Seq<char>>)>) -> Seq<
    (Seq<char>, Option<Seq<char>>),
> {
    seq![(backup_root(), Option::<Seq<char>>::None)] + rp_plan_spec(ifaces)
}

/// The interface name holds no path separator.
pub open spec fn slashless(n: Seq<char>) -> bool {
    forall|i: int| 0 <= i < n.len() ==> n[i] != '/'
}

/// The last write wins across a concatenation of action sequences.
proof fn lemma_fs_after_concat(
    a: Seq<(Seq<char>, Option<Seq<char>>)>,
    b: Seq<(Seq<char>, Option<Seq<char>>)>,
    path: Seq<char>,
)
    ensures
        fs_after(a + b, path) == (if fs_after(b, path) is Some {
            fs_after(b, path)
        } else {
            fs_after(a, path)
        }),
    decreases b.len(),
{
    if b.len() == 0 {
        assert(a + b =~= a);
    } else {
        assert((a + b).last() == b.last());
        assert((a + b).drop_last() =~= a + b.drop_last());
        lemma_fs_after_concat(a, b.drop_last(), path);
    }
}

/// The paths of distinct slash-free interface names never collide, and the
/// three path shapes never collide with one another.
proof fn lemma_path_distinct(a: Seq<char>, b: Seq<char>)
    requires
        slashless(a),
        slashless(b),
    ensures
        backup_file_path(a) == backup_file_path(b) ==> a == b,
        live_path(a) == live_path(b) ==> a == b,
        backup_file_path(a) != backup_dir_path(b),
        backup_file_path(a) != live_path(b),
        backup_dir_path(a) != live_path(b),
{
    reveal_strlit("/tmp/home/root/backup");
    reveal_strlit("/proc/sys/net/ipv4/conf");
    reveal_strlit("/rp_filter");
    let bfa = backup_file_path(a);
    let bfb = backup_file_path(b);
    let la = live_path(a);
    let lb = live_path(b);
    assert(bfa.len() == 32 + a.len());
    assert(la.len() == 34 + a.len());
    if bfa == bfb {
        assert(a.len() == b.len());
        assert forall|i: int| 0 <= i < a.len() implies a[i] == b[i] by {
            assert(bfa[22 + i] == a[i]);
            assert(bfb[22 + i] == b[i]);
        }
        assert(a =~= b);
    }
    if la == lb {
        assert(a.len() == b.len());
        assert forall|i: int| 0 <= i < a.len() implies a[i] == b[i] by {
            assert(la[24 + i] == a[i]);
            assert(lb[24 + i] == b[i]);
        }
        assert(a =~= b);
    }
    assert(bfa != backup_dir_path(b)) by {
        if bfa == backup_dir_path(b) {
            assert(backup_dir_path(b).len() == 22 + b.len());
            assert(b.len() == a.len() + 10);
            assert(bfa[22 + a.len() as int] == '/');
            assert(backup_dir_path(b)[22 + a.len() as int] == b[a.len() as int]);
            assert(b[a.len() as int] != '/');
        }
    }
    assert(bfa != lb) by {
        if bfa == lb {
            assert(bfa[1] == 't');
            assert(lb[1] == 'p');
        }
    }
    assert(backup_dir_path(a) != lb) by {
        if backup_dir_path(a) == lb {
            assert(backup_dir_path(a)[1] == 't');
            assert(lb[1] == 'p');
        }
    }
}

/// A path that is no interface's backup directory, backup file, or live
/// control is never written by the plan.
proof fn lemma_rp_plan_untouched(ifaces: Seq<(Seq<char>, Option<Seq<char>>)>, path: Seq<char>)
    requires
        forall|t: int|
            0 <= t < ifaces.len() ==> path != backup_dir_path((#[trigger] ifaces[t]).0) && path
                != backup_file_path(ifaces[t].0) && path != live_path(ifaces[t].0),
    ensures
        fs_after(rp_plan_spec(ifaces), path) is None,
    decreases ifaces.len(),
{
    if ifaces.len() > 0 {
        let seg = iface_actions(ifaces[0]);
        let rest = ifaces.drop_first();
        assert(forall|t: int|
            0 <= t < rest.len() ==> #[trigger] rest[t] == ifaces[t + 1]);
        lemma_rp_plan_untouched(rest, path);
        lemma_fs_after_concat(seg, rp_plan_spec(rest), path);
        assert(fs_after(seg, path) is None) by {
            match ifaces[0].1 {
                None => {},
                Some(v) => {
                    assert(seg.len() == 3);
                    assert(seg.last() == (live_path(ifaces[0].0), Some("0"@)));
                    assert(fs_after(seg, path) == fs_after(seg.drop_last(), path));
                    assert(seg.drop_last().last() == seg[1]);
                    assert(seg[1] == (backup_file_path(ifaces[0].0), Some(v)));
                    assert(fs_after(seg.drop_last(), path) == fs_after(
                        seg.drop_last().drop_last(),
                        path,
                    ));
                    assert(seg.drop_last().drop_last() =~= seq![seg[0]]);
                    assert(seg[0] == (backup_dir_path(ifaces[0].0), Option::<Seq<char>>::None));
                    assert(fs_after(seq![seg[0]], path) == fs_after(
                        seq![seg[0]].drop_last(),
                        path,
                    ));
                    assert(seq![seg[0]].drop_last() =~= Seq::<
                        (Seq<char>, Option<Seq<char>>),
                    >::empty());
                },
            }
        }
    }
}

/// Backup before overwrite, seen in the final state: after the whole
/// stage runs on distinct slash-free interfaces, an interface that exposed
/// `rp_filter` with some value has that value in its backup file and `"0"`
/// in its live control. In particular a value of `"1"` is preserved as
/// `"1"` while the live control reads `"0"`.
pub proof fn lemma_rp_filter_backup_restore(
    ifaces: Seq<(Seq<char>, Option<Seq<char>>)>,
    k: int,
)
    requires
        0 <= k < ifaces.len(),
        ifaces[k].1 is Some,
        forall|i: int, j: int|
            0 <= i < j < ifaces.len() ==> (#[trigger] ifaces[i]).0 != (#[trigger] ifaces[j]).0,
        forall|i: int| 0 <= i < ifaces.len() ==> slashless((#[trigger] ifaces[i]).0),
    ensures
        fs_after(full_rp_plan(ifaces), backup_file_path(ifaces[k].0)) == Some(
            ifaces[k].1.unwrap(),
        ),
        fs_after(full_rp_plan(ifaces), live_path(ifaces[k].0)) == Some("0"@),
{
    lemma_rp_spec_lookup(ifaces, k);
    lemma_fs_after_concat(
        seq![(backup_root(), Option::<Seq<char>>::None)],
        rp_plan_spec(ifaces),
        backup_file_path(ifaces[k].0),
    );
    lemma_fs_after_concat(
        seq![(backup_root(), Option::<Seq<char>>::None)],
        rp_plan_spec(ifaces),
        live_path(ifaces[k].0),
    );
}

/// The lookup behind `lemma_rp_filter_backup_restore`, over the
/// per-interface actions alone.
proof fn lemma_rp_spec_lookup(ifaces: Seq<(Seq<char>, Option<Seq<char>>)>, k: int)
    requires
        0 <= k < ifaces.len(),
        ifaces[k].1 is Some,
        forall|i: int, j: int|
            0 <= i < j < ifaces.len() ==> (#[trigger] ifaces[i]).0 != (#[trigger] ifaces[j]).0,
        forall|i: int| 0 <= i < ifaces.len() ==> slashless((#[trigger] ifaces[i]).0),
    ensures
        fs_after(rp_plan_spec(ifaces), backup_file_path(ifaces[k].0)) == Some(
            ifaces[k].1.unwrap(),
        ),
        fs_after(rp_plan_spec(ifaces), live_path(ifaces[k].0)) == Some("0"@),
    decreases k,
{
    let seg = iface_actions(ifaces[0]);
    let rest = ifaces.drop_first();
    assert(forall|t: int| 0 <= t < rest.len() ==> #[trigger] rest[t] == ifaces[t + 1]);
    let name = ifaces[k].0;
    let bf = backup_file_path(name);
    let lv = live_path(name);
    lemma_fs_after_concat(seg, rp_plan_spec(rest), bf);
    lemma_fs_after_concat(seg, rp_plan_spec(rest), lv);
    if k == 0 {
        assert forall|t: int|
            0 <= t < rest.len() implies bf != backup_dir_path((#[trigger] rest[t]).0) && bf
            != backup_file_path(rest[t].0) && bf != live_path(rest[t].0) by {
            lemma_path_distinct(name, rest[t].0);
            lemma_path_distinct(rest[t].0, name);
        }
        assert forall|t: int|
            0 <= t < rest.len() implies lv != backup_dir_path((#[trigger] rest[t]).0) && lv
            != backup_file_path(rest[t].0) && lv != live_path(rest[t].0) by {
            lemma_path_distinct(name, rest[t].0);
            lemma_path_distinct(rest[t].0, name);
        }
        lemma_rp_plan_untouched(rest, bf);
        lemma_rp_plan_untouched(rest, lv);
        let v = ifaces[0].1.unwrap();
        assert(seg.len() == 3);
        assert(seg.last() == (live_path(name), Some("0"@)));
        assert(fs_after(seg, lv) == Some("0"@));
        lemma_path_distinct(name, name);
        assert(bf != lv);
        assert(fs_after(seg, bf) == fs_after(seg.drop_last(), bf));
        assert(seg.drop_last().last() == seg[1]);
        assert(seg[1] == (backup_file_path(name), Some(v)));
        assert(fs_after(seg.drop_last(), bf) == Some(v));
        assert(fs_after(seg, bf) == Some(v));
    } else {
        lemma_rp_spec_lookup(rest, k - 1);
        assert(rest[k - 1] == ifaces[k]);
    }
}

/// The reverse-path-filter plan: first the backup root directory, then for
/// each interface in order its three actions (none for an interface
/// without the control).
pub fn disable_rp_filter_plan(ifaces: &Vec<InterfaceState>) -> (plan: Vec<FsAction>)
    ensures
        plan@.map_values(|a: FsAction| a@) == seq![(backup_root(), Option::<Seq<char>>::None)]
            + rp_plan_spec(ifaces@.map_values(|i: InterfaceState| i@)),
{
    let ghost views = ifaces@.map_values(|i: InterfaceState| i@);
    let mut plan: Vec<FsAction> = Vec::new();
    plan.push(FsAction::EnsureDir("/tmp/home/root/backup".to_owned()));
    proof {
        assert(plan@.map_values(|a: FsAction| a@) =~~= seq![(backup_root(), Option::<Seq<char>>::None)]);
        assert(views.skip(0) =~= views);
    }
    let mut k: usize = 0;
    while k < ifaces.len()
        invariant
            k <= ifaces@.len(),
            views == ifaces@.map_values(|i: InterfaceState| i@),
            plan@.map_values(|a: FsAction| a@) + rp_plan_spec(views.skip(k as int)) =~~= seq![
                (backup_root(), Option::<Seq<char>>::None),
            ] + rp_plan_spec(views),
        decreases ifaces@.len() - k,
    {
        let ghost pv = plan@.map_values(|a: FsAction| a@);
        let ghost rest = views.skip(k as int);
        proof {
            assert(rest[0] == views[k as int]);
            assert(rest.drop_first() =~= views.skip(k + 1));
            assert(rp_plan_spec(rest) == iface_actions(views[k as int]) + rp_plan_spec(
                views.skip(k + 1),
            ));
        }
        let iface = &ifaces[k];
        match &iface.rp_filter {
            Some(v) => {
                let mut dir = "/tmp/home/root/backup".to_owned();
                dir.append("/");
                dir.append(iface.name.as_str());
                let mut file = dir.clone();
                file.append("/rp_filter");
                let mut live = "/proc/sys/net/ipv4/conf".to_owned();
                live.append("/");
                live.append(iface.name.as_str());
                live.append("/rp_filter");
                proof {
                    reveal_strlit("/");
                    assert(dir@ =~= backup_dir_path(iface.name@));
                    assert(file@ =~= backup_file_path(iface.name@));
                    assert(live@ =~= live_path(iface.name@));
                }
                let ghost p0 = plan@;
                let ghost a1v = (dir@, Option::<Seq<char>>::None);
                let ghost a2v = (file@, Some(v@));
                let ghost a3v = (live@, Some("0"@));
                plan.push(FsAction::EnsureDir(dir));
                let backup_content = v.clone();
                plan.push(FsAction::WriteFile(file, backup_content));
                plan.push(FsAction::WriteFile(live, "0".to_owned()));
                proof {
                    assert(plan@.len() == p0.len() + 3);
                    assert(forall|t: int| 0 <= t < p0.len() ==> #[trigger] plan@[t] == p0[t]);
                    assert(plan@[p0.len() as int]@ == a1v);
                    assert(plan@[p0.len() + 1int]@ == a2v);
                    assert(plan@[p0.len() + 2int]@ == a3v);
                    assert(views[k as int] == iface@);
                    assert(iface_actions(views[k as int]) =~~= seq![
                        (backup_dir_path(iface.name@), Option::<Seq<char>>::None),
                        (backup_file_path(iface.name@), Some(v@)),
                        (live_path(iface.name@), Some("0"@)),
                    ]);
                    assert(plan@.map_values(|a: FsAction| a@) =~~= pv + iface_actions(views[k as int]));
                    assert(plan@.map_values(|a: FsAction| a@) + rp_plan_spec(views.skip(k + 1)) =~~= seq![
                        (backup_root(), Option::<Seq<char>>::None),
                    ] + rp_plan_spec(views));
                }
            },
            None => {
                proof {
                    assert(views[k as int] == iface@);
                    assert(iface_actions(views[k as int]) =~= Seq::<
                        (Seq<char>, Option<Seq<char>>),
                    >::empty());
                    assert(plan@.map_values(|a: FsAction| a@) + rp_plan_spec(views.skip(k + 1)) =~~= seq![
                        (backup_root(), Option::<Seq<char>>::None),
                    ] + rp_plan_spec(views));
                }
            },
        }
        k = k + 1;
    }
    proof {
        assert(views.skip(views.len() as int) =~= Seq::<(Seq<char>, Option<Seq<char>>)>::empty());
        assert(rp_plan_spec(views.skip(views.len() as int)) =~= Seq::<
            (Seq<char>, Option<Seq<char>>),
        >::empty());
        assert(plan@.map_values(|a: FsAction| a@) =~~= seq![
            (backup_root(), Option::<Seq<char>>::None),
        ] + rp_plan_spec(views));
    }
    plan
}

} // verus!

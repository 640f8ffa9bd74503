//! Naming of backup snapshots, and choice of the most recent one.
use vstd::prelude::*;

use crate::error::XdevError;
use crate::globals::{BACKUP_FILE_PREFIX, BACKUP_FILE_SUFFIX};
use crate::text::{
    chars_of, copy_range, decimal, decimal_chars, ends_with, has_prefix, has_suffix, parse_u64,
    parsed_u64, starts_with, string_of,
};

verus! {

/// The name of the snapshot taken at Unix time `ts` (seconds).
pub open spec fn backup_name(ts: nat) -> Seq<char> {
    BACKUP_FILE_PREFIX@ + decimal(ts) + BACKUP_FILE_SUFFIX@
}

/// A file name of the backup store's form.
pub open spec fn is_backup_name(n: Seq<char>) -> bool {
    &&& n.len() >= BACKUP_FILE_PREFIX@.len() + BACKUP_FILE_SUFFIX@.len()
    &&& has_prefix(n, BACKUP_FILE_PREFIX@)
    &&& has_suffix(n, BACKUP_FILE_SUFFIX@)
}

/// The time a backup name records; a name whose middle is not a number sorts as 0.
pub open spec fn backup_time(n: Seq<char>) -> u64 {
    match parsed_u64(
        n.subrange(BACKUP_FILE_PREFIX@.len() as int, n.len() - BACKUP_FILE_SUFFIX@.len()),
    ) {
        Some(v) => v,
        None => 0,
    }
}

/// Relies on `SystemTime::now` and `duration_since(UNIX_EPOCH)`: the current Unix time
/// in seconds. Nothing is promised of its value; a clock set before 1970 reads as 0.
#[verifier::external_body]
pub(crate) fn unix_now() -> (r: u64) {
    match std::time::SystemTime::now().duration_since(std::time::UNIX_EPOCH) {
        Ok(d) => d.as_secs(),
        Err(_) => 0,
    }
}

/// The name of the snapshot taken at time `ts`.
pub fn backup_filename_for(ts: u64) -> (r: String)
    ensures
        r@ == backup_name(ts as nat),
{
    let mut r = String::from_str(BACKUP_FILE_PREFIX);
    let d = string_of(&decimal_chars(ts));
    r.append(d.as_str());
    r.append(BACKUP_FILE_SUFFIX);
    r
}

/// The name of a snapshot taken now.
pub fn generate_backup_filename() -> (r: String)
    ensures
        exists|ts: u64| r@ == backup_name(ts as nat),
{
    let ts = unix_now();
    backup_filename_for(ts)
}

/// Whether `name` is a backup name, and the time it records.
pub fn backup_name_time(name: &str) -> (r: Option<u64>)
    ensures
        is_backup_name(name@) ==> r == Some(backup_time(name@)),
        !is_backup_name(name@) ==> r is None,
{
    let n = chars_of(name);
    let p = chars_of(BACKUP_FILE_PREFIX);
    let s = chars_of(BACKUP_FILE_SUFFIX);
    if n.len() >= p.len() && n.len() - p.len() >= s.len() && starts_with(&n, &p) && ends_with(
        &n,
        &s,
    ) {
        let mid = copy_range(&n, p.len(), n.len() - s.len());
        match parse_u64(&mid) {
            Some(v) => Some(v),
            None => Some(0),
        }
    } else {
        None
    }
}

/// The most recent backup among `names`: the backup name with the greatest recorded
/// time, and of several with that time the last one listed. Other names are ignored.
pub fn select_latest_backup(names: &Vec<String>) -> (r: Result<String, XdevError>)
    ensures
        r is Err <==> forall|i: int| 0 <= i < names.len() ==> !is_backup_name(#[trigger] names@[i]@),
        r is Err ==> r == Err::<String, XdevError>(XdevError::BackupNotFound),
        r is Ok ==> exists|i: int|
            0 <= i < names.len() && #[trigger] names@[i]@ == r->Ok_0@ && is_backup_name(names@[i]@)
                && (forall|j: int|
                0 <= j < names.len() && is_backup_name(#[trigger] names@[j]@) ==> backup_time(
                    names@[j]@,
                ) <= backup_time(names@[i]@) && (j > i ==> backup_time(names@[j]@) < backup_time(
                    names@[i]@,
                ))),
{
    let mut best: Option<usize> = None;
    let mut best_time: u64 = 0;
    let mut k: usize = 0;
    while k < names.len()
        invariant
            k <= names.len(),
            best is None ==> forall|j: int| 0 <= j < k ==> !is_backup_name(#[trigger] names@[j]@),
            best is Some ==> {
                let i = best->0 as int;
                &&& 0 <= i < k
                &&& is_backup_name(names@[i]@)
                &&& best_time == backup_time(names@[i]@)
                &&& forall|j: int|
                    0 <= j < k && is_backup_name(#[trigger] names@[j]@) ==> backup_time(names@[j]@)
                        <= best_time && (j > i ==> backup_time(names@[j]@) < best_time)
            },
        decreases names.len() - k,
    {
        match backup_name_time(names[k].as_str()) {
            Some(t) => {
                if best.is_none() || t >= best_time {
                    best = Some(k);
                    best_time = t;
                }
            },
            None => {},
        }
        k += 1;
    }
    match best {
        Some(i) => Ok(names[i].clone()),
        None => Err(XdevError::BackupNotFound),
    }
}


/// The backups among `names`, in listing order, with the time each records.
pub open spec fn backup_entries(names: Seq<Seq<char>>) -> Seq<(Seq<char>, u64)>
    decreases names.len(),
{
    if names.len() == 0 {
        Seq::empty()
    } else {
        let prev = backup_entries(names.drop_last());
        if is_backup_name(names.last()) {
            prev.push((names.last(), backup_time(names.last())))
        } else {
            prev
        }
    }
}

pub open spec fn newest_first(s: Seq<(Seq<char>, u64)>) -> bool {
    forall|i: int, j: int| 0 <= i < j < s.len() ==> (#[trigger] s[i]).1 >= (#[trigger] s[j]).1
}

/// The backups among `names` with their recorded times, newest first. Other names are
/// left out.
pub fn backups_newest_first(names: &Vec<String>) -> (r: Vec<(String, u64)>)
    ensures
        r.deep_view().to_multiset() == backup_entries(names.deep_view()).to_multiset(),
        newest_first(r.deep_view()),
{
    let mut r: Vec<(String, u64)> = Vec::new();
    let mut k: usize = 0;
    assert(r.deep_view() =~= Seq::<(Seq<char>, u64)>::empty());
    assert(names.deep_view().take(0) =~= Seq::<Seq<char>>::empty());
    while k < names.len()
        invariant
            k <= names.len(),
            r.deep_view().to_multiset() == backup_entries(names.deep_view().take(k as int)).to_multiset(),
            newest_first(r.deep_view()),
        decreases names.len() - k,
    {
        proof {
            assert(names.deep_view().take(k as int + 1).drop_last() =~= names.deep_view().take(
                k as int,
            ));
        }
        let ghost nk = names.deep_view()[k as int];
        assert(names.deep_view().take(k as int + 1).last() == nk);
        assert(nk == names@[k as int]@);
        match backup_name_time(names[k].as_str()) {
            Some(t) => {
                let mut p: usize = 0;
                while p < r.len() && r[p].1 > t
                    invariant
                        p <= r.len(),
                        forall|i: int| 0 <= i < p ==> (#[trigger] r.deep_view()[i]).1 > t,
                    decreases r.len() - p,
                {
                    assert(r.deep_view()[p as int].1 == r@[p as int].1);
                    p += 1;
                }
                let ghost before = r.deep_view();
                let e = (names[k].clone(), t);
                r.insert(p, e);
                proof {
                    assert(r.deep_view() =~= before.insert(p as int, (nk, t)));
                    vstd::seq_lib::to_multiset_insert(before, p as int, (nk, t));
                    vstd::seq_lib::to_multiset_build(
                        backup_entries(names.deep_view().take(k as int)),
                        (nk, t),
                    );
                    assert(backup_entries(names.deep_view().take(k as int + 1)) == backup_entries(
                        names.deep_view().take(k as int),
                    ).push((nk, t)));
                    if p < before.len() {
                        assert(r@[p as int + 1].1 <= t);
                    }
                    assert forall|i: int, j: int| 0 <= i < j < r.deep_view().len() implies (
                    #[trigger] r.deep_view()[i]).1 >= (#[trigger] r.deep_view()[j]).1 by {
                        let nv = r.deep_view();
                        if j < p {
                            assert(nv[i] == before[i] && nv[j] == before[j]);
                        } else if j == p {
                            assert(nv[i] == before[i]);
                        } else if i < p {
                            assert(nv[i] == before[i] && nv[j] == before[j - 1]);
                            assert(before[p as int].1 <= t);
                        } else if i == p {
                            assert(nv[j] == before[j - 1]);
                            assert(before[p as int].1 <= t);
                            if j - 1 > p {
                                assert(before[p as int].1 >= before[j - 1].1);
                            }
                        } else {
                            assert(nv[i] == before[i - 1] && nv[j] == before[j - 1]);
                        }
                    }
                }
            },
            None => {},
        }
        k += 1;
    }
    proof {
        assert(names.deep_view().take(k as int) =~= names.deep_view());
    }
    r
}

} // verus!

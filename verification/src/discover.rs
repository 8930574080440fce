//! Auto-discovery support: deciding which directory names look like
//! terminal installations, building their display names, and merging what
//! a filesystem scan found into the watch-list without duplicating paths.
//! Walking the filesystem itself is the caller's business.
use vstd::prelude::*;

use crate::config::{
    model_with_added, path_ok, path_present, targets_wf, text_ok, ConfigModel, WatchConfig,
};
use crate::text::{bytes_eq, lit, lit_bytes, lower_bytes, lower_vec, push_bytes, sub_bytes};

verus! {

/// `n` occurs as a contiguous run inside `h`.
pub open spec fn has_sub(h: Seq<u8>, n: Seq<u8>) -> bool {
    exists|k: int| 0 <= k && k + n.len() <= h.len() && #[trigger] h.subrange(k, k + n.len()) == n
}

/// Substring search.
pub fn contains_sub(h: &[u8], n: &[u8]) -> (r: bool)
    ensures
        r == has_sub(h@, n@),
{
    let hn = h.len();
    let nn = n.len();
    if nn == 0 {
        proof {
            assert(h@.subrange(0, 0 + n@.len() as int) =~= n@);
            assert(0 <= 0 && 0 + n@.len() as int <= h@.len() && h@.subrange(0, 0 + n@.len() as int) == n@);
        }
        return true;
    }
    if nn > hn {
        proof {
            assert forall|k: int|
                !(0 <= k && k + n@.len() <= h@.len() && #[trigger] h@.subrange(k, k + n@.len())
                    == n@) by {}
        }
        return false;
    }
    let mut k: usize = 0;
    while k <= hn - nn
        invariant
            hn == h@.len(),
            nn == n@.len(),
            nn <= hn,
            1 <= nn,
            k <= hn - nn + 1,
            forall|m: int| 0 <= m < k ==> #[trigger] h@.subrange(m, m + n@.len()) != n@,
        decreases hn - k,
    {
        let cand = sub_bytes(h, k, k + nn);
        if bytes_eq(cand.as_slice(), n) {
            proof {
                assert(h@.subrange(k as int, k as int + n@.len()) == n@);
            }
            return true;
        }
        k = k + 1;
    }
    proof {
        assert forall|m: int|
            !(0 <= m && m + n@.len() <= h@.len() && #[trigger] h@.subrange(m, m + n@.len())
                == n@) by {
            if 0 <= m && m + n@.len() <= h@.len() {
                assert(m < k);
            }
        }
    }
    false
}

/// A directory name that looks like a terminal installation, compared in
/// lower case.
pub open spec fn dir_matches(name: Seq<u8>) -> bool {
    ||| has_sub(lower_bytes(name), lit("metatrader"))
    ||| has_sub(lower_bytes(name), lit("mt4"))
    ||| has_sub(lower_bytes(name), lit("mt5"))
}

/// Decides whether a directory name belongs to a terminal installation.
pub fn is_terminal_dir(name: &[u8]) -> (r: bool)
    ensures
        r == dir_matches(name@),
{
    proof {
        reveal_strlit("metatrader");
        reveal_strlit("mt4");
        reveal_strlit("mt5");
    }
    let l = lower_vec(name);
    let p1 = lit_bytes("metatrader");
    let p2 = lit_bytes("mt4");
    let p3 = lit_bytes("mt5");
    contains_sub(l.as_slice(), p1.as_slice()) || contains_sub(l.as_slice(), p2.as_slice())
        || contains_sub(l.as_slice(), p3.as_slice())
}

/// The platform half of a discovered display name.
pub open spec fn platform_label(name: Seq<u8>) -> Seq<u8> {
    if has_sub(lower_bytes(name), lit("mt5")) {
        lit("MT5")
    } else {
        lit("MT4")
    }
}

/// The display name given to a discovered installation:
/// `<directory> - <platform> (<width>bit)`.
pub open spec fn spec_display_name(name: Seq<u8>, is64: bool) -> Seq<u8> {
    name + lit(" - ") + platform_label(name) + (if is64 {
        lit(" (64bit)")
    } else {
        lit(" (32bit)")
    })
}

/// Builds the display name of a discovered installation.
pub fn display_name_for(name: &[u8], is64: bool) -> (v: Vec<u8>)
    ensures
        v@ == spec_display_name(name@, is64),
{
    proof {
        reveal_strlit("mt5");
        reveal_strlit(" - ");
        reveal_strlit("MT5");
        reveal_strlit("MT4");
        reveal_strlit(" (64bit)");
        reveal_strlit(" (32bit)");
    }
    let l = lower_vec(name);
    let p3 = lit_bytes("mt5");
    let mut v: Vec<u8> = Vec::new();
    push_bytes(&mut v, name);
    let sep = lit_bytes(" - ");
    push_bytes(&mut v, sep.as_slice());
    if contains_sub(l.as_slice(), p3.as_slice()) {
        let lbl = lit_bytes("MT5");
        push_bytes(&mut v, lbl.as_slice());
    } else {
        let lbl = lit_bytes("MT4");
        push_bytes(&mut v, lbl.as_slice());
    }
    if is64 {
        let suffix = lit_bytes(" (64bit)");
        push_bytes(&mut v, suffix.as_slice());
    } else {
        let suffix = lit_bytes(" (32bit)");
        push_bytes(&mut v, suffix.as_slice());
    }
    proof {
        assert(v@ =~= spec_display_name(name@, is64));
    }
    v
}

// ---------- merging discovered entries ----------

/// The (name, path) pairs a scan handed over, as byte strings.
pub open spec fn pview(v: Seq<(Vec<u8>, Vec<u8>)>) -> Seq<(Seq<u8>, Seq<u8>)> {
    Seq::new(v.len(), |i: int| (v[i].0@, v[i].1@))
}

/// One discovered entry merged: added under the next free key unless its
/// path is already watched or its text cannot be stored.
pub open spec fn add_one(m: ConfigModel, name: Seq<u8>, path: Seq<u8>) -> ConfigModel {
    if path_present(m.targets, path) || !(text_ok(name) && path_ok(path)) {
        m
    } else {
        model_with_added(m, name, path)
    }
}

/// All discovered entries merged, in scan order.
pub open spec fn add_all(m: ConfigModel, items: Seq<(Seq<u8>, Seq<u8>)>) -> ConfigModel
    decreases items.len(),
{
    if items.len() == 0 {
        m
    } else {
        add_one(add_all(m, items.drop_last()), items.last().0, items.last().1)
    }
}

/// How many of the entries actually enter the list.
pub open spec fn added_count(m: ConfigModel, items: Seq<(Seq<u8>, Seq<u8>)>) -> int
    decreases items.len(),
{
    if items.len() == 0 {
        0int
    } else {
        let before = add_all(m, items.drop_last());
        added_count(m, items.drop_last()) + (if path_present(before.targets, items.last().1) || !(
        text_ok(items.last().0) && path_ok(items.last().1)) {
            0int
        } else {
            1int
        })
    }
}

/// Merges everything a scan found into the watch-list, deduplicating
/// against the targets already present (and against the scan itself), and
/// says how many entries were new.
pub fn add_discovered(c: &mut WatchConfig, found: &Vec<(Vec<u8>, Vec<u8>)>) -> (added: usize)
    requires
        targets_wf(old(c)@.targets),
        old(c)@.targets.len() + found@.len() + 1 < u64::MAX,
    ensures
        final(c)@ == add_all(old(c)@, pview(found@)),
        added == added_count(old(c)@, pview(found@)),
        targets_wf(final(c)@.targets),
{
    let ghost m0 = c@;
    let ghost items = pview(found@);
    let n = found.len();
    let mut added: usize = 0;
    let mut i: usize = 0;
    proof {
        assert(items.take(0) =~= Seq::<(Seq<u8>, Seq<u8>)>::empty());
    }
    while i < n
        invariant
            n == found@.len(),
            i <= n,
            m0.targets.len() + n + 1 < u64::MAX,
            items == pview(found@),
            c@ == add_all(m0, items.take(i as int)),
            added as int == added_count(m0, items.take(i as int)),
            added <= i,
            c@.targets.len() <= m0.targets.len() + i,
            targets_wf(c@.targets),
            c@.poll_interval_seconds == m0.poll_interval_seconds,
            c@.auto_start_enabled == m0.auto_start_enabled,
        decreases n - i,
    {
        let name = crate::config::clone_bytes(&found[i].0);
        let path = crate::config::clone_bytes(&found[i].1);
        let ghost before = c@;
        proof {
            assert(items.take(i as int + 1).drop_last() =~= items.take(i as int));
            assert(items.take(i as int + 1).last() == items[i as int]);
            assert(items[i as int] == (found@[i as int].0@, found@[i as int].1@));
        }
        let r = c.add_target(name, path);
        proof {
            if r is Ok {
                crate::config::lemma_insert_sorted_len(
                    before.targets,
                    crate::config::TargetModel {
                        key: crate::config::spec_next_key(before.targets),
                        name: found@[i as int].0@,
                        path: found@[i as int].1@,
                        enabled: true,
                    },
                );
            }
        }
        match r {
            Ok(_) => {
                added = added + 1;
            },
            Err(_) => {},
        }
        i = i + 1;
    }
    proof {
        assert(items.take(n as int) =~= items);
    }
    added
}

} // verus!

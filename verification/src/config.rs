//! The in-memory configuration model: the watch-list and its editing
//! operations. A target is identified by its executable path, compared
//! case-insensitively; each target also carries a small numeric key that
//! the key/value encodings write as `MT_<n>`.
use vstd::prelude::*;

use crate::text::{bytes_eq, is_ws, lower_bytes, lower_vec, no_byte};
use vstd::pervasive::VecAdditionalExecFns;

verus! {

/// One watched executable.
pub struct WatchTarget {
    /// Synthetic key, as written in the `MT_<n>` encodings.
    pub key: u64,
    /// Free display text; not unique.
    pub name: Vec<u8>,
    /// Absolute executable path; identity, case-insensitive.
    pub path: Vec<u8>,
    /// Disabled targets are skipped by the watchdog.
    pub enabled: bool,
}

/// The whole configuration.
pub struct WatchConfig {
    /// Seconds between watchdog ticks; kept within 10..=300.
    pub poll_interval_seconds: u64,
    /// The watch-list, kept sorted by ascending key.
    pub targets: Vec<WatchTarget>,
    /// Whether the watchdog registers itself to start at login.
    pub auto_start_enabled: bool,
}

/// Mathematical image of a target.
#[verifier::ext_equal]
pub ghost struct TargetModel {
    pub key: u64,
    pub name: Seq<u8>,
    pub path: Seq<u8>,
    pub enabled: bool,
}

/// Mathematical image of a configuration.
#[verifier::ext_equal]
pub ghost struct ConfigModel {
    pub poll_interval_seconds: u64,
    pub targets: Seq<TargetModel>,
    pub auto_start_enabled: bool,
}

impl View for WatchTarget {
    type V = TargetModel;

    open spec fn view(&self) -> TargetModel {
        TargetModel {
            key: self.key,
            name: self.name@,
            path: self.path@,
            enabled: self.enabled,
        }
    }
}

/// The mathematical image of a target vector.
pub open spec fn tview(v: Seq<WatchTarget>) -> Seq<TargetModel> {
    Seq::new(v.len(), |i: int| v[i]@)
}

impl View for WatchConfig {
    type V = ConfigModel;

    open spec fn view(&self) -> ConfigModel {
        ConfigModel {
            poll_interval_seconds: self.poll_interval_seconds,
            targets: tview(self.targets@),
            auto_start_enabled: self.auto_start_enabled,
        }
    }
}

/// Errors surfaced by the editing operations; the configuration is left
/// unchanged whenever one is returned.
#[derive(Clone, Copy, Debug, PartialEq, Eq, Structural)]
pub enum ValidationError {
    /// Poll interval outside 10..=300.
    OutOfRange,
    /// The (case-insensitively) same path is already watched.
    DuplicatePath,
    /// Target index beyond the list.
    IndexOutOfRange,
    /// Name or path holds bytes no encoding can carry.
    InvalidText,
}

// ---------- well-formedness ----------

/// Text that every encoding can carry on one line: no line breaks and no
/// field separator.
pub open spec fn text_ok(s: Seq<u8>) -> bool {
    no_byte(s, 10) && no_byte(s, 13) && no_byte(s, 124)
}

/// Paths additionally must not end in whitespace, which value trimming
/// would strip on re-reading.
pub open spec fn path_ok(s: Seq<u8>) -> bool {
    text_ok(s) && (s.len() > 0 ==> !is_ws(s[s.len() - 1]))
}

pub open spec fn target_wf(t: TargetModel) -> bool {
    text_ok(t.name) && path_ok(t.path)
}

/// The watch-list invariant: well-formed fields, strictly ascending keys,
/// and no two targets sharing a lower-cased path.
pub open spec fn targets_wf(ts: Seq<TargetModel>) -> bool {
    &&& forall|i: int| 0 <= i < ts.len() ==> target_wf(#[trigger] ts[i])
    &&& forall|i: int, j: int| 0 <= i < j < ts.len() ==> ts[i].key < ts[j].key
    &&& forall|i: int, j: int|
        0 <= i < j < ts.len() ==> lower_bytes(ts[i].path) != lower_bytes(ts[j].path)
    &&& ts.len() < u64::MAX
}

pub open spec fn config_wf(m: ConfigModel) -> bool {
    &&& 10 <= m.poll_interval_seconds <= 300
    &&& targets_wf(m.targets)
}

/// The fallback configuration used when loading fails.
pub open spec fn default_model() -> ConfigModel {
    ConfigModel { poll_interval_seconds: 30, targets: Seq::empty(), auto_start_enabled: true }
}

// ---------- keys and paths ----------

pub open spec fn key_used(ts: Seq<TargetModel>, k: u64) -> bool {
    exists|i: int| 0 <= i < ts.len() && ts[i].key == k
}

pub open spec fn path_present(ts: Seq<TargetModel>, p: Seq<u8>) -> bool {
    exists|i: int| 0 <= i < ts.len() && lower_bytes(ts[i].path) == lower_bytes(p)
}

/// `k` is the smallest positive key not yet in use.
pub open spec fn is_next_key(ts: Seq<TargetModel>, k: u64) -> bool {
    &&& k >= 1
    &&& !key_used(ts, k)
    &&& forall|m: u64| 1 <= m < k ==> key_used(ts, m)
}

pub open spec fn spec_next_key(ts: Seq<TargetModel>) -> u64 {
    choose|k: u64| is_next_key(ts, k)
}

pub proof fn lemma_next_key_unique(ts: Seq<TargetModel>, k1: u64, k2: u64)
    requires
        is_next_key(ts, k1),
        is_next_key(ts, k2),
    ensures
        k1 == k2,
{
    if k1 < k2 {
        assert(key_used(ts, k1));
    }
    if k2 < k1 {
        assert(key_used(ts, k2));
    }
}

/// Pins `spec_next_key` down for a caller who knows the next key.
pub proof fn lemma_next_key_is(ts: Seq<TargetModel>, k: u64)
    requires
        is_next_key(ts, k),
    ensures
        spec_next_key(ts) == k,
{
    assert(is_next_key(ts, k));
    assert(exists|x: u64| is_next_key(ts, x));
    lemma_next_key_unique(ts, k, spec_next_key(ts));
}

/// Insertion keeping keys in ascending order.
pub open spec fn insert_sorted(ts: Seq<TargetModel>, t: TargetModel) -> Seq<TargetModel>
    decreases ts.len(),
{
    if ts.len() == 0 {
        seq![t]
    } else if ts[0].key < t.key {
        seq![ts[0]] + insert_sorted(ts.skip(1), t)
    } else {
        seq![t] + ts
    }
}

/// What a successful `add_target` produces.
pub open spec fn model_with_added(m: ConfigModel, name: Seq<u8>, path: Seq<u8>) -> ConfigModel {
    ConfigModel {
        targets: insert_sorted(
            m.targets,
            TargetModel { key: spec_next_key(m.targets), name: name, path: path, enabled: true },
        ),
        ..m
    }
}

// ---------- exec helpers ----------

/// Copies a byte string.
pub fn clone_bytes(v: &Vec<u8>) -> (r: Vec<u8>)
    ensures
        r@ == v@,
{
    let r = v.clone();
    proof {
        assert(r@ =~= v@);
    }
    r
}

/// Copies a target.
pub fn clone_target(t: &WatchTarget) -> (r: WatchTarget)
    ensures
        r@ == t@,
{
    WatchTarget {
        key: t.key,
        name: clone_bytes(&t.name),
        path: clone_bytes(&t.path),
        enabled: t.enabled,
    }
}

/// Checks that `s` is free of the byte `b`.
pub fn has_no_byte(s: &[u8], b: u8) -> (r: bool)
    ensures
        r <==> no_byte(s@, b),
{
    let n = s.len();
    let mut i: usize = 0;
    while i < n
        invariant
            n == s@.len(),
            i <= n,
            forall|m: int| 0 <= m < i ==> s@[m] != b,
        decreases n - i,
    {
        if s[i] == b {
            return false;
        }
        i = i + 1;
    }
    true
}

/// Checks `text_ok` on a byte string.
pub fn check_text_ok(s: &[u8]) -> (r: bool)
    ensures
        r <==> text_ok(s@),
{
    has_no_byte(s, 10) && has_no_byte(s, 13) && has_no_byte(s, 124)
}

/// Checks `path_ok` on a byte string.
pub fn check_path_ok(s: &[u8]) -> (r: bool)
    ensures
        r <==> path_ok(s@),
{
    if !check_text_ok(s) {
        return false;
    }
    let n = s.len();
    if n == 0 {
        return true;
    }
    let b = s[n - 1];
    !(b == 32 || (9 <= b && b <= 13))
}

/// Index in `ts` of the target whose path equals `path`, case-insensitively.
pub fn find_path_in(ts: &Vec<WatchTarget>, path: &[u8]) -> (r: Option<usize>)
    ensures
        match r {
            Some(i) => i < tview(ts@).len() && lower_bytes(tview(ts@)[i as int].path)
                == lower_bytes(path@),
            None => !path_present(tview(ts@), path@),
        },
{
    let needle = lower_vec(path);
    let n = ts.len();
    let mut i: usize = 0;
    while i < n
        invariant
            n == ts@.len(),
            i <= n,
            needle@ == lower_bytes(path@),
            forall|m: int| 0 <= m < i ==> lower_bytes(tview(ts@)[m].path) != lower_bytes(path@),
        decreases n - i,
    {
        let cand = lower_vec(ts[i].path.as_slice());
        if bytes_eq(cand.as_slice(), needle.as_slice()) {
            return Some(i);
        }
        i = i + 1;
    }
    None
}

impl Default for WatchConfig {
    /// The configuration used when nothing can be loaded.
    fn default() -> (c: WatchConfig)
        ensures
            c@ == default_model(),
            config_wf(c@),
    {
        let c = WatchConfig {
            poll_interval_seconds: 30,
            targets: Vec::new(),
            auto_start_enabled: true,
        };
        proof {
            assert(c@ =~~= default_model());
        }
        c
    }
}

impl WatchConfig {
    /// The watch-list, in its stored (key-ascending) order.
    pub fn list_targets(&self) -> (r: &Vec<WatchTarget>)
        ensures
            tview(r@) == self@.targets,
    {
        &self.targets
    }

    /// Index of the target whose path equals `path` case-insensitively.
    pub fn find_path(&self, path: &[u8]) -> (r: Option<usize>)
        ensures
            match r {
                Some(i) => i < self@.targets.len() && lower_bytes(self@.targets[i as int].path)
                    == lower_bytes(path@),
                None => !path_present(self@.targets, path@),
            },
    {
        find_path_in(&self.targets, path)
    }

    /// The smallest positive key not yet used by any target.
    pub fn next_key(&self) -> (k: u64)
        requires
            targets_wf(self@.targets),
        ensures
            is_next_key(self@.targets, k),
            k == spec_next_key(self@.targets),
    {
        let ghost ts = self@.targets;
        let n = self.targets.len();
        let mut cand: u64 = 1;
        let mut i: usize = 0;
        while i < n
            invariant
                n == ts.len(),
                targets_wf(ts),
                i <= n,
                1 <= cand,
                cand as int <= i + 1,
                self@.targets == ts,
                forall|m: u64| 1 <= m < cand ==> key_used(ts, m),
                forall|j: int| 0 <= j < i ==> ts[j].key < cand,
            decreases n - i,
        {
            let k = self.targets[i].key;
            if k == cand {
                proof {
                    assert(ts[i as int].key == cand);
                    assert(key_used(ts, cand));
                }
                cand = cand + 1;
            } else if k > cand {
                // keys ascend, so no later target can hold `cand` either
                proof {
                    assert forall|j: int| 0 <= j < n implies ts[j].key != cand by {
                        if j > i {
                            assert(ts[i as int].key < ts[j].key);
                        }
                    }
                    lemma_next_key_unique(ts, cand, spec_next_key(ts));
                }
                return cand;
            }
            i = i + 1;
        }
        proof {
            assert(!key_used(ts, cand));
            lemma_next_key_unique(ts, cand, spec_next_key(ts));
        }
        cand
    }

    /// Replaces the poll interval; rejects values outside 10..=300.
    pub fn set_poll_interval(&mut self, seconds: u64) -> (r: Result<(), ValidationError>)
        ensures
            10 <= seconds <= 300 ==> r == Ok::<(), ValidationError>(()) && final(self)@ == (
            ConfigModel { poll_interval_seconds: seconds, ..old(self)@ }),
            !(10 <= seconds <= 300) ==> r == Err::<(), ValidationError>(
                ValidationError::OutOfRange,
            ) && final(self)@ == old(self)@,
    {
        if 10 <= seconds && seconds <= 300 {
            self.poll_interval_seconds = seconds;
            proof {
                assert(self@ =~~= (ConfigModel {
                    poll_interval_seconds: seconds,
                    ..old(self)@
                }));
            }
            Ok(())
        } else {
            proof {
                assert(self@ =~~= old(self)@);
            }
            Err(ValidationError::OutOfRange)
        }
    }

    /// Replaces the autostart flag.
    pub fn set_auto_start(&mut self, on: bool)
        ensures
            final(self)@ == (ConfigModel { auto_start_enabled: on, ..old(self)@ }),
    {
        self.auto_start_enabled = on;
        proof {
            assert(self@ =~~= (ConfigModel { auto_start_enabled: on, ..old(self)@ }));
        }
    }

    /// Removes the target at `index`; the rest keep their order.
    pub fn remove_target(&mut self, index: usize) -> (r: Result<(), ValidationError>)
        ensures
            index < old(self)@.targets.len() ==> r == Ok::<(), ValidationError>(()) && final(self)@ == (ConfigModel { targets: old(self)@.targets.remove(index as int), ..old(self)@ }),
            index >= old(self)@.targets.len() ==> r == Err::<(), ValidationError>(
                ValidationError::IndexOutOfRange,
            ) && final(self)@ == old(self)@,
    {
        if index < self.targets.len() {
            self.targets.remove(index);
            proof {
                assert(self@ =~~= (ConfigModel {
                    targets: old(self)@.targets.remove(index as int),
                    ..old(self)@
                }));
            }
            Ok(())
        } else {
            proof {
                assert(self@ =~~= old(self)@);
            }
            Err(ValidationError::IndexOutOfRange)
        }
    }

    /// Flips the enabled flag of the target at `index`.
    pub fn toggle_target(&mut self, index: usize) -> (r: Result<(), ValidationError>)
        ensures
            index < old(self)@.targets.len() ==> r == Ok::<(), ValidationError>(()) && final(self)@ == (ConfigModel {
                targets: old(self)@.targets.update(
                    index as int,
                    TargetModel {
                        enabled: !old(self)@.targets[index as int].enabled,
                        ..old(self)@.targets[index as int]
                    },
                ),
                ..old(self)@
            }),
            index >= old(self)@.targets.len() ==> r == Err::<(), ValidationError>(
                ValidationError::IndexOutOfRange,
            ) && final(self)@ == old(self)@,
    {
        if index < self.targets.len() {
            let t = &self.targets[index];
            let flipped = WatchTarget {
                key: t.key,
                name: clone_bytes(&t.name),
                path: clone_bytes(&t.path),
                enabled: !t.enabled,
            };
            self.targets.set(index, flipped);
            proof {
                assert(self@ =~~= (ConfigModel {
                    targets: old(self)@.targets.update(
                        index as int,
                        TargetModel {
                            enabled: !old(self)@.targets[index as int].enabled,
                            ..old(self)@.targets[index as int]
                        },
                    ),
                    ..old(self)@
                }));
            }
            Ok(())
        } else {
            proof {
                assert(self@ =~~= old(self)@);
            }
            Err(ValidationError::IndexOutOfRange)
        }
    }

    /// Adds a new enabled target under the next free key, keeping the list
    /// sorted; rejects a duplicate path (case-insensitively) and text that
    /// the encodings cannot carry.
    pub fn add_target(&mut self, name: Vec<u8>, path: Vec<u8>) -> (r: Result<
        (),
        ValidationError,
    >)
        requires
            targets_wf(old(self)@.targets),
            old(self)@.targets.len() + 1 < u64::MAX,
        ensures
            path_present(old(self)@.targets, path@) ==> r == Err::<(), ValidationError>(
                ValidationError::DuplicatePath,
            ) && final(self)@ == old(self)@,
            !path_present(old(self)@.targets, path@) && !(text_ok(name@) && path_ok(path@)) ==> r
                == Err::<(), ValidationError>(ValidationError::InvalidText) && final(self)@ == old(self)@,
            !path_present(old(self)@.targets, path@) && text_ok(name@) && path_ok(path@) ==> r
                == Ok::<(), ValidationError>(()) && final(self)@ == model_with_added(
                old(self)@,
                name@,
                path@,
            ),
            targets_wf(final(self)@.targets),
    {
        proof {
            assert(self@ =~~= old(self)@);
        }
        if let Some(_i) = self.find_path(path.as_slice()) {
            return Err(ValidationError::DuplicatePath);
        }
        if !(check_text_ok(name.as_slice()) && check_path_ok(path.as_slice())) {
            return Err(ValidationError::InvalidText);
        }
        let key = self.next_key();
        proof {
            lemma_next_key_unique(self@.targets, key, spec_next_key(self@.targets));
        }
        let t = WatchTarget { key: key, name: name, path: path, enabled: true };
        let ghost ts = self@.targets;
        let ghost tm = t@;
        // find the sorted position
        let n = self.targets.len();
        let mut i: usize = 0;
        while i < n && self.targets[i].key < key
            invariant
                n == self.targets@.len(),
                i <= n,
                forall|m: int| 0 <= m < i ==> self.targets@[m]@.key < key,
                self@.targets == ts,
            decreases n - i,
        {
            i = i + 1;
        }
        proof {
            lemma_insert_sorted_at(ts, tm, i as int);
        }
        self.targets.insert(i, t);
        proof {
            assert(self@.targets =~= ts.insert(i as int, tm));
            assert(final(self)@ =~~= (ConfigModel {
                targets: insert_sorted(ts, tm),
                ..old(self)@
            }));
            lemma_insert_sorted_wf(ts, tm);
        }
        Ok(())
    }
}

/// `insert_sorted` lands exactly at the first index whose key is larger.
pub proof fn lemma_insert_sorted_at(ts: Seq<TargetModel>, t: TargetModel, i: int)
    requires
        0 <= i <= ts.len(),
        forall|m: int| 0 <= m < i ==> ts[m].key < t.key,
        i < ts.len() ==> ts[i].key >= t.key,
    ensures
        insert_sorted(ts, t) == ts.insert(i, t),
    decreases ts.len(),
{
    if ts.len() == 0 {
        assert(insert_sorted(ts, t) =~= ts.insert(0, t));
    } else if ts[0].key < t.key {
        assert(i > 0);
        assert forall|m: int| 0 <= m < i - 1 implies ts.skip(1)[m].key < t.key by {
            assert(ts.skip(1)[m] == ts[m + 1]);
        }
        if i - 1 < ts.skip(1).len() {
            assert(ts.skip(1)[i - 1] == ts[i]);
        }
        lemma_insert_sorted_at(ts.skip(1), t, i - 1);
        assert(seq![ts[0]] + ts.skip(1).insert(i - 1, t) =~= ts.insert(i, t));
    } else {
        assert(i == 0);
        assert(seq![t] + ts =~= ts.insert(0, t));
    }
}

/// The first position whose key is at least `k` (the length when none is).
pub open spec fn first_key_ge(ts: Seq<TargetModel>, k: u64) -> int
    decreases ts.len(),
{
    if ts.len() == 0 {
        0
    } else if ts[0].key >= k {
        0
    } else {
        1 + first_key_ge(ts.skip(1), k)
    }
}

pub proof fn lemma_first_key_ge(ts: Seq<TargetModel>, k: u64)
    ensures
        0 <= first_key_ge(ts, k) <= ts.len(),
        forall|m: int| 0 <= m < first_key_ge(ts, k) ==> ts[m].key < k,
        first_key_ge(ts, k) < ts.len() ==> ts[first_key_ge(ts, k)].key >= k,
    decreases ts.len(),
{
    if ts.len() == 0 {
    } else if ts[0].key >= k {
    } else {
        lemma_first_key_ge(ts.skip(1), k);
        let j0 = first_key_ge(ts.skip(1), k);
        assert forall|m: int| 0 <= m < j0 + 1 implies ts[m].key < k by {
            if m > 0 {
                assert(ts.skip(1)[m - 1] == ts[m]);
            }
        }
        if j0 + 1 < ts.len() {
            assert(ts[j0 + 1] == ts.skip(1)[j0]);
        }
    }
}

/// Insertion grows the list by exactly one.
pub proof fn lemma_insert_sorted_len(ts: Seq<TargetModel>, t: TargetModel)
    ensures
        insert_sorted(ts, t).len() == ts.len() + 1,
    decreases ts.len(),
{
    if ts.len() == 0 {
    } else if ts[0].key < t.key {
        lemma_insert_sorted_len(ts.skip(1), t);
    } else {
    }
}

/// Inserting a fresh, well-formed target under an unused key and a path not
/// yet present keeps the watch-list invariant.
pub proof fn lemma_insert_sorted_wf(ts: Seq<TargetModel>, t: TargetModel)
    requires
        targets_wf(ts),
        target_wf(t),
        !key_used(ts, t.key),
        !path_present(ts, t.path),
        ts.len() + 1 < u64::MAX,
    ensures
        targets_wf(insert_sorted(ts, t)),
        insert_sorted(ts, t).len() == ts.len() + 1,
{
    lemma_first_key_ge(ts, t.key);
    let j = first_key_ge(ts, t.key);
    lemma_insert_sorted_at(ts, t, j);
    let r = ts.insert(j, t);
    assert(r.len() == ts.len() + 1);
    assert forall|a: int| 0 <= a < r.len() implies r[a] == (if a < j {
        ts[a]
    } else if a == j {
        t
    } else {
        ts[a - 1]
    }) by {}
    assert forall|a: int, b: int| 0 <= a < b < r.len() implies r[a].key < r[b].key by {
        if b == j {
            assert(r[a] == ts[a]);
        } else if a == j {
            assert(r[b] == ts[b - 1]);
            assert(b - 1 >= j);
            if b - 1 > j {
                if j < ts.len() {
                    assert(ts[j].key < ts[b - 1].key);
                }
            }
            assert(ts[b - 1].key != t.key);
        } else if a < j && b > j {
            assert(a < b - 1 || a == b - 1);
            if a == b - 1 {
                assert(ts[a].key < t.key && t.key <= ts[a].key);
            }
        }
    }
    assert forall|a: int, b: int| 0 <= a < b < r.len() implies lower_bytes(r[a].path)
        != lower_bytes(r[b].path) by {}
}

} // verus!

//! The on-disk configuration encodings. Three textual layouts are
//! understood, all converging on one in-memory model:
//!
//! * structured: `check_interval_seconds=`/`auto_start_enabled=` fields and
//!   one `mt4_instance=enabled|name|path` line per target;
//! * flat key/value: `CheckInterval`, `AutoStart` and `MT_<n>` keys, with
//!   booleans written `1`/`0`;
//! * commented (INI-like): the same keys under `[Section]` headers with
//!   `;` comment scaffolding, booleans written `ON`/`OFF`.
//!
//! Reading accepts any of `ON/TRUE/1` and `OFF/FALSE/0` in any case for a
//! boolean. Writing emits targets in stored order, which the watch-list
//! invariant keeps ascending by key, so the output is stable and diffable.
use vstd::prelude::*;

use crate::config::{
    config_wf, default_model, insert_sorted, key_used, path_ok, path_present, target_wf,
    targets_wf, text_ok, ConfigModel, TargetModel, WatchConfig, WatchTarget,
};
use crate::text::{lower_bytes, split_lines};
use crate::text::{boolish, dec_digits, find_byte, lit, lit_bytes, parse_u64, trim, u64_to_dec};

verus! {

// ---------- the keys and tokens, as byte strings ----------

pub open spec fn kw_check_interval() -> Seq<u8> {
    lit("CheckInterval")
}

pub open spec fn kw_auto_start() -> Seq<u8> {
    lit("AutoStart")
}

pub open spec fn kw_mt_prefix() -> Seq<u8> {
    lit("MT_")
}

pub open spec fn kw_interval_seconds() -> Seq<u8> {
    lit("check_interval_seconds")
}

pub open spec fn kw_auto_enabled() -> Seq<u8> {
    lit("auto_start_enabled")
}

pub open spec fn kw_instance() -> Seq<u8> {
    lit("mt4_instance")
}

/// Boolean as the flat encoding writes it.
pub open spec fn tok_flat(b: bool) -> Seq<u8> {
    if b {
        lit("1")
    } else {
        lit("0")
    }
}

/// Boolean as the commented encoding writes it.
pub open spec fn tok_ini(b: bool) -> Seq<u8> {
    if b {
        lit("ON")
    } else {
        lit("OFF")
    }
}

/// Boolean as the structured encoding writes it.
pub open spec fn tok_structured(b: bool) -> Seq<u8> {
    if b {
        lit("true")
    } else {
        lit("false")
    }
}

// ---------- line-level parsing ----------

/// The key/value split of one raw line: `None` for blank lines, comment
/// lines (`;`), section headers (`[`) and lines without `=`; otherwise the
/// trimmed key and value around the first `=`.
pub open spec fn line_kv(raw: Seq<u8>) -> Option<(Seq<u8>, Seq<u8>)> {
    let l = trim(raw);
    if l.len() == 0 || l[0] == 59 || l[0] == 91 {
        None
    } else {
        let i = find_byte(l, 61);
        if 0 <= i < l.len() {
            Some((trim(l.take(i)), trim(l.skip(i + 1))))
        } else {
            None
        }
    }
}

/// A value split into exactly three parts at `|`; `None` when `|` occurs
/// fewer or more than two times.
pub open spec fn split3(v: Seq<u8>) -> Option<(Seq<u8>, Seq<u8>, Seq<u8>)> {
    let i = find_byte(v, 124);
    if 0 <= i < v.len() {
        let rest = v.skip(i + 1);
        let j = find_byte(rest, 124);
        if 0 <= j < rest.len() {
            let third = rest.skip(j + 1);
            if find_byte(third, 124) == -1 {
                Some((v.take(i), rest.take(j), third))
            } else {
                None
            }
        } else {
            None
        }
    } else {
        None
    }
}

/// The number of an `MT_<n>` key, when the key has that form.
pub open spec fn mt_key_num(key: Seq<u8>) -> Option<u64> {
    if key.len() > 3 && key.take(3) == kw_mt_prefix() {
        parse_u64(key.skip(3))
    } else {
        None
    }
}

/// The poll interval read from a value: out-of-range or unreadable values
/// fall back to the default of 30.
pub open spec fn interval_of(v: Seq<u8>) -> u64 {
    match parse_u64(v) {
        Some(n) => if 10 <= n <= 300 {
            n
        } else {
            30
        },
        None => 30,
    }
}

/// The target read from an `enabled|name|path` value, under the given key
/// number; `None` when the triple is malformed or its fields could not be
/// written back.
pub open spec fn triple_target(key_num: u64, v: Seq<u8>) -> Option<TargetModel> {
    match split3(v) {
        Some((tok, name, path)) => if text_ok(name) && path_ok(path) {
            Some(TargetModel { key: key_num, name: name, path: path, enabled: boolish(tok) })
        } else {
            None
        },
        None => None,
    }
}

// ---------- rendering ----------

/// Lines joined with one LF after each line.
pub open spec fn join_nl(lines: Seq<Seq<u8>>) -> Seq<u8>
    decreases lines.len(),
{
    if lines.len() == 0 {
        Seq::empty()
    } else {
        lines[0] + seq![10u8] + join_nl(lines.skip(1))
    }
}

/// One target entry of the flat or commented encodings.
pub open spec fn entry_line_mt(t: TargetModel, tok: Seq<u8>) -> Seq<u8> {
    kw_mt_prefix() + dec_digits(t.key as nat) + seq![61u8] + tok + seq![124u8] + t.name
        + seq![124u8] + t.path
}

/// One target entry of the structured encoding.
pub open spec fn entry_line_structured(t: TargetModel) -> Seq<u8> {
    kw_instance() + seq![61u8] + tok_structured(t.enabled) + seq![124u8] + t.name + seq![124u8]
        + t.path
}

pub open spec fn flat_lines(m: ConfigModel) -> Seq<Seq<u8>> {
    seq![
        kw_check_interval() + seq![61u8] + dec_digits(m.poll_interval_seconds as nat),
        kw_auto_start() + seq![61u8] + tok_flat(m.auto_start_enabled),
    ] + m.targets.map_values(|t: TargetModel| entry_line_mt(t, tok_flat(t.enabled)))
}

pub open spec fn ini_lines(m: ConfigModel) -> Seq<Seq<u8>> {
    seq![
        lit("; MetaGuard configuration"),
        lit("[Settings]"),
        lit("; seconds between watchdog ticks, 10 to 300"),
        kw_check_interval() + seq![61u8] + dec_digits(m.poll_interval_seconds as nat),
        lit("; start with Windows: ON or OFF"),
        kw_auto_start() + seq![61u8] + tok_ini(m.auto_start_enabled),
        lit("[MT4_MT5]"),
        lit("; MT_<n>=ON|display name|full path of terminal.exe"),
    ] + m.targets.map_values(|t: TargetModel| entry_line_mt(t, tok_ini(t.enabled)))
}

pub open spec fn structured_lines(m: ConfigModel) -> Seq<Seq<u8>> {
    seq![
        kw_interval_seconds() + seq![61u8] + dec_digits(m.poll_interval_seconds as nat),
        kw_auto_enabled() + seq![61u8] + tok_structured(m.auto_start_enabled),
    ] + m.targets.map_values(|t: TargetModel| entry_line_structured(t))
}

pub open spec fn spec_save_flat(m: ConfigModel) -> Seq<u8> {
    join_nl(flat_lines(m))
}

pub open spec fn spec_save_ini(m: ConfigModel) -> Seq<u8> {
    join_nl(ini_lines(m))
}

pub open spec fn spec_save_structured(m: ConfigModel) -> Seq<u8> {
    join_nl(structured_lines(m))
}

/// Appending one line to a joined rendering.
pub proof fn lemma_join_push(lines: Seq<Seq<u8>>, l: Seq<u8>)
    ensures
        join_nl(lines.push(l)) == join_nl(lines) + l + seq![10u8],
    decreases lines.len(),
{
    if lines.len() == 0 {
        assert(lines.push(l).skip(1) =~= Seq::<Seq<u8>>::empty());
        assert(join_nl(Seq::<Seq<u8>>::empty()) == Seq::<u8>::empty());
        assert(lines.push(l)[0] == l);
        assert(join_nl(lines.push(l)) == l + seq![10u8] + Seq::<u8>::empty());
        assert(l + seq![10u8] + Seq::<u8>::empty() =~= l + seq![10u8]);
        assert(join_nl(lines) == Seq::<u8>::empty());
        assert(join_nl(lines) + l + seq![10u8] =~= l + seq![10u8]);
    } else {
        assert(lines.push(l).skip(1) =~= lines.skip(1).push(l));
        lemma_join_push(lines.skip(1), l);
        assert(lines.push(l)[0] == lines[0]);
        assert(lines[0] + seq![10u8] + (join_nl(lines.skip(1)) + l + seq![10u8]) =~= (lines[0]
            + seq![10u8] + join_nl(lines.skip(1))) + l + seq![10u8]);
    }
}

// ---------- exec building blocks ----------

/// Appends `line` and a newline to `out`.
fn push_line(out: &mut Vec<u8>, line: &Vec<u8>)
    ensures
        final(out)@ == old(out)@ + line@ + seq![10u8],
{
    crate::text::push_bytes(out, line.as_slice());
    out.push(10);
    proof {
        assert(out@ =~= old(out)@ + line@ + seq![10u8]);
    }
}

/// Builds `key=value` as one line.
fn build_kv_line(key: &Vec<u8>, value: &Vec<u8>) -> (v: Vec<u8>)
    ensures
        v@ == key@ + seq![61u8] + value@,
{
    let mut v: Vec<u8> = Vec::new();
    crate::text::push_bytes(&mut v, key.as_slice());
    v.push(61);
    crate::text::push_bytes(&mut v, value.as_slice());
    proof {
        assert(v@ =~= key@ + seq![61u8] + value@);
    }
    v
}

/// Builds `tok|name|path`, the value of one target entry.
fn build_triple(tok: &Vec<u8>, name: &Vec<u8>, path: &Vec<u8>) -> (v: Vec<u8>)
    ensures
        v@ == tok@ + seq![124u8] + name@ + seq![124u8] + path@,
{
    let mut v: Vec<u8> = Vec::new();
    crate::text::push_bytes(&mut v, tok.as_slice());
    v.push(124);
    crate::text::push_bytes(&mut v, name.as_slice());
    v.push(124);
    crate::text::push_bytes(&mut v, path.as_slice());
    proof {
        assert(v@ =~= tok@ + seq![124u8] + name@ + seq![124u8] + path@);
    }
    v
}

fn tok_flat_vec(b: bool) -> (v: Vec<u8>)
    ensures
        v@ == tok_flat(b),
{
    proof {
        reveal_strlit("1");
        reveal_strlit("0");
    }
    if b {
        lit_bytes("1")
    } else {
        lit_bytes("0")
    }
}

fn tok_ini_vec(b: bool) -> (v: Vec<u8>)
    ensures
        v@ == tok_ini(b),
{
    proof {
        reveal_strlit("ON");
        reveal_strlit("OFF");
    }
    if b {
        lit_bytes("ON")
    } else {
        lit_bytes("OFF")
    }
}

fn tok_structured_vec(b: bool) -> (v: Vec<u8>)
    ensures
        v@ == tok_structured(b),
{
    proof {
        reveal_strlit("true");
        reveal_strlit("false");
    }
    if b {
        lit_bytes("true")
    } else {
        lit_bytes("false")
    }
}

/// Builds one `MT_<n>` key.
fn build_mt_key(key: u64) -> (v: Vec<u8>)
    ensures
        v@ == kw_mt_prefix() + dec_digits(key as nat),
{
    proof {
        reveal_strlit("MT_");
    }
    let mut v = lit_bytes("MT_");
    let digits = u64_to_dec(key);
    crate::text::push_bytes(&mut v, digits.as_slice());
    v
}

// ---------- the three savers ----------

/// Serializes into the flat key/value encoding.
pub fn save_flat(c: &WatchConfig) -> (out: Vec<u8>)
    ensures
        out@ == spec_save_flat(c@),
{
    proof {
        reveal_strlit("CheckInterval");
        reveal_strlit("AutoStart");
    }
    let mut out: Vec<u8> = Vec::new();
    let ghost m = c@;
    let ghost mut ls: Seq<Seq<u8>> = Seq::empty();

    let k1 = lit_bytes("CheckInterval");
    let d = u64_to_dec(c.poll_interval_seconds);
    let l1 = build_kv_line(&k1, &d);
    push_line(&mut out, &l1);
    proof {
        lemma_join_push(ls, l1@);
        ls = ls.push(l1@);
        assert(join_nl(Seq::<Seq<u8>>::empty()) + l1@ + seq![10u8] =~= l1@ + seq![10u8]);
    }

    let k2 = lit_bytes("AutoStart");
    let t2 = tok_flat_vec(c.auto_start_enabled);
    let l2 = build_kv_line(&k2, &t2);
    push_line(&mut out, &l2);
    proof {
        lemma_join_push(ls, l2@);
        ls = ls.push(l2@);
    }

    let n = c.targets.len();
    let mut i: usize = 0;
    while i < n
        invariant
            n == c.targets@.len(),
            i <= n,
            m == c@,
            out@ == join_nl(ls),
            ls =~= seq![
                kw_check_interval() + seq![61u8] + dec_digits(m.poll_interval_seconds as nat),
                kw_auto_start() + seq![61u8] + tok_flat(m.auto_start_enabled),
            ] + m.targets.take(i as int).map_values(
                |t: TargetModel| entry_line_mt(t, tok_flat(t.enabled)),
            ),
        decreases n - i,
    {
        let t = &c.targets[i];
        let key = build_mt_key(t.key);
        let tok = tok_flat_vec(t.enabled);
        let trip = build_triple(&tok, &t.name, &t.path);
        let line = build_kv_line(&key, &trip);
        proof {
            assert(line@ =~= entry_line_mt(m.targets[i as int], tok_flat(
                m.targets[i as int].enabled,
            )));
        }
        push_line(&mut out, &line);
        proof {
            lemma_join_push(ls, line@);
            ls = ls.push(line@);
            assert(m.targets.take(i as int + 1) =~= m.targets.take(i as int).push(
                m.targets[i as int],
            ));
            assert(m.targets.take(i as int).map_values(
                |t0: TargetModel| entry_line_mt(t0, tok_flat(t0.enabled)),
            ).push(entry_line_mt(m.targets[i as int], tok_flat(m.targets[i as int].enabled))) =~= m
                .targets.take(i as int + 1).map_values(
                |t0: TargetModel| entry_line_mt(t0, tok_flat(t0.enabled)),
            ));
        }
        i = i + 1;
    }
    proof {
        assert(m.targets.take(n as int) =~= m.targets);
        assert(ls =~= flat_lines(m));
    }
    out
}

/// Serializes into the structured encoding.
pub fn save_structured(c: &WatchConfig) -> (out: Vec<u8>)
    ensures
        out@ == spec_save_structured(c@),
{
    proof {
        reveal_strlit("check_interval_seconds");
        reveal_strlit("auto_start_enabled");
        reveal_strlit("mt4_instance");
    }
    let mut out: Vec<u8> = Vec::new();
    let ghost m = c@;
    let ghost mut ls: Seq<Seq<u8>> = Seq::empty();

    let k1 = lit_bytes("check_interval_seconds");
    let d = u64_to_dec(c.poll_interval_seconds);
    let l1 = build_kv_line(&k1, &d);
    push_line(&mut out, &l1);
    proof {
        lemma_join_push(ls, l1@);
        ls = ls.push(l1@);
        assert(join_nl(Seq::<Seq<u8>>::empty()) + l1@ + seq![10u8] =~= l1@ + seq![10u8]);
    }

    let k2 = lit_bytes("auto_start_enabled");
    let t2 = tok_structured_vec(c.auto_start_enabled);
    let l2 = build_kv_line(&k2, &t2);
    push_line(&mut out, &l2);
    proof {
        lemma_join_push(ls, l2@);
        ls = ls.push(l2@);
    }

    let kent = lit_bytes("mt4_instance");
    let n = c.targets.len();
    let mut i: usize = 0;
    while i < n
        invariant
            n == c.targets@.len(),
            i <= n,
            m == c@,
            kent@ == kw_instance(),
            out@ == join_nl(ls),
            ls =~= seq![
                kw_interval_seconds() + seq![61u8] + dec_digits(m.poll_interval_seconds as nat),
                kw_auto_enabled() + seq![61u8] + tok_structured(m.auto_start_enabled),
            ] + m.targets.take(i as int).map_values(
                |t: TargetModel| entry_line_structured(t),
            ),
        decreases n - i,
    {
        let t = &c.targets[i];
        let tok = tok_structured_vec(t.enabled);
        let trip = build_triple(&tok, &t.name, &t.path);
        let line = build_kv_line(&kent, &trip);
        proof {
            assert(line@ =~= entry_line_structured(m.targets[i as int]));
        }
        push_line(&mut out, &line);
        proof {
            lemma_join_push(ls, line@);
            ls = ls.push(line@);
            assert(m.targets.take(i as int + 1) =~= m.targets.take(i as int).push(
                m.targets[i as int],
            ));
            assert(m.targets.take(i as int).map_values(
                |t0: TargetModel| entry_line_structured(t0),
            ).push(entry_line_structured(m.targets[i as int])) =~= m.targets.take(
                i as int + 1,
            ).map_values(|t0: TargetModel| entry_line_structured(t0)));
        }
        i = i + 1;
    }
    proof {
        assert(m.targets.take(n as int) =~= m.targets);
        assert(ls =~= structured_lines(m));
    }
    out
}

/// Serializes into the commented encoding, with its comment scaffolding.
pub fn save_ini(c: &WatchConfig) -> (out: Vec<u8>)
    ensures
        out@ == spec_save_ini(c@),
{
    proof {
        reveal_strlit("; MetaGuard configuration");
        reveal_strlit("[Settings]");
        reveal_strlit("; seconds between watchdog ticks, 10 to 300");
        reveal_strlit("; start with Windows: ON or OFF");
        reveal_strlit("[MT4_MT5]");
        reveal_strlit("; MT_<n>=ON|display name|full path of terminal.exe");
        reveal_strlit("CheckInterval");
        reveal_strlit("AutoStart");
    }
    let mut out: Vec<u8> = Vec::new();
    let ghost m = c@;
    let ghost mut ls: Seq<Seq<u8>> = Seq::empty();

    let c1 = lit_bytes("; MetaGuard configuration");
    push_line(&mut out, &c1);
    proof {
        lemma_join_push(ls, c1@);
        ls = ls.push(c1@);
        assert(join_nl(Seq::<Seq<u8>>::empty()) + c1@ + seq![10u8] =~= c1@ + seq![10u8]);
    }
    let s1 = lit_bytes("[Settings]");
    push_line(&mut out, &s1);
    proof {
        lemma_join_push(ls, s1@);
        ls = ls.push(s1@);
    }
    let c2 = lit_bytes("; seconds between watchdog ticks, 10 to 300");
    push_line(&mut out, &c2);
    proof {
        lemma_join_push(ls, c2@);
        ls = ls.push(c2@);
    }
    let k1 = lit_bytes("CheckInterval");
    let d = u64_to_dec(c.poll_interval_seconds);
    let l1 = build_kv_line(&k1, &d);
    push_line(&mut out, &l1);
    proof {
        lemma_join_push(ls, l1@);
        ls = ls.push(l1@);
    }
    let c3 = lit_bytes("; start with Windows: ON or OFF");
    push_line(&mut out, &c3);
    proof {
        lemma_join_push(ls, c3@);
        ls = ls.push(c3@);
    }
    let k2 = lit_bytes("AutoStart");
    let t2 = tok_ini_vec(c.auto_start_enabled);
    let l2 = build_kv_line(&k2, &t2);
    push_line(&mut out, &l2);
    proof {
        lemma_join_push(ls, l2@);
        ls = ls.push(l2@);
    }
    let s2 = lit_bytes("[MT4_MT5]");
    push_line(&mut out, &s2);
    proof {
        lemma_join_push(ls, s2@);
        ls = ls.push(s2@);
    }
    let c4 = lit_bytes("; MT_<n>=ON|display name|full path of terminal.exe");
    push_line(&mut out, &c4);
    proof {
        lemma_join_push(ls, c4@);
        ls = ls.push(c4@);
    }

    let n = c.targets.len();
    let mut i: usize = 0;
    while i < n
        invariant
            n == c.targets@.len(),
            i <= n,
            m == c@,
            out@ == join_nl(ls),
            ls =~= seq![
                lit("; MetaGuard configuration"),
                lit("[Settings]"),
                lit("; seconds between watchdog ticks, 10 to 300"),
                kw_check_interval() + seq![61u8] + dec_digits(m.poll_interval_seconds as nat),
                lit("; start with Windows: ON or OFF"),
                kw_auto_start() + seq![61u8] + tok_ini(m.auto_start_enabled),
                lit("[MT4_MT5]"),
                lit("; MT_<n>=ON|display name|full path of terminal.exe"),
            ] + m.targets.take(i as int).map_values(
                |t: TargetModel| entry_line_mt(t, tok_ini(t.enabled)),
            ),
        decreases n - i,
    {
        let t = &c.targets[i];
        let key = build_mt_key(t.key);
        let tok = tok_ini_vec(t.enabled);
        let trip = build_triple(&tok, &t.name, &t.path);
        let line = build_kv_line(&key, &trip);
        proof {
            assert(line@ =~= entry_line_mt(m.targets[i as int], tok_ini(
                m.targets[i as int].enabled,
            )));
        }
        push_line(&mut out, &line);
        proof {
            lemma_join_push(ls, line@);
            ls = ls.push(line@);
            assert(m.targets.take(i as int + 1) =~= m.targets.take(i as int).push(
                m.targets[i as int],
            ));
            assert(m.targets.take(i as int).map_values(
                |t0: TargetModel| entry_line_mt(t0, tok_ini(t0.enabled)),
            ).push(entry_line_mt(m.targets[i as int], tok_ini(m.targets[i as int].enabled))) =~= m
                .targets.take(i as int + 1).map_values(
                |t0: TargetModel| entry_line_mt(t0, tok_ini(t0.enabled)),
            ));
        }
        i = i + 1;
    }
    proof {
        assert(m.targets.take(n as int) =~= m.targets);
        assert(ls =~= ini_lines(m));
    }
    out
}


// ---------- reading: one line into the model ----------

/// Index of the target carrying key `k`, or -1.
pub open spec fn key_index(ts: Seq<TargetModel>, k: u64) -> int
    decreases ts.len(),
{
    if ts.len() == 0 {
        -1
    } else if ts[0].key == k {
        0
    } else {
        let r = key_index(ts.skip(1), k);
        if r < 0 {
            -1
        } else {
            1 + r
        }
    }
}

pub proof fn lemma_key_index(ts: Seq<TargetModel>, k: u64)
    ensures
        key_index(ts, k) == -1 ==> !key_used(ts, k),
        key_index(ts, k) >= 0 ==> 0 <= key_index(ts, k) < ts.len() && ts[key_index(ts, k)].key == k
            && (forall|m: int| 0 <= m < key_index(ts, k) ==> ts[m].key != k),
    decreases ts.len(),
{
    if ts.len() == 0 {
    } else if ts[0].key == k {
    } else {
        lemma_key_index(ts.skip(1), k);
        let r = key_index(ts.skip(1), k);
        if r < 0 {
            assert forall|i: int| 0 <= i < ts.len() implies ts[i].key != k by {
                if i > 0 {
                    assert(ts[i] == ts.skip(1)[i - 1]);
                }
            }
        } else {
            assert(ts[1 + r] == ts.skip(1)[r]);
            assert forall|m: int| 0 <= m < 1 + r implies ts[m].key != k by {
                if m > 0 {
                    assert(ts[m] == ts.skip(1)[m - 1]);
                }
            }
        }
    }
}

/// A path equal to `t.path` (case-insensitively) held by a target other
/// than the one at `i`.
pub open spec fn path_present_except(ts: Seq<TargetModel>, p: Seq<u8>, i: int) -> bool {
    exists|j: int| 0 <= j < ts.len() && j != i && lower_bytes(ts[j].path) == lower_bytes(p)
}

/// How one `MT_<n>` entry lands in the list: an entry under an existing key
/// replaces that target, a new key is inserted in order; either way an
/// entry whose path would collide with another target is dropped, as is one
/// that would overflow the key space.
pub open spec fn upsert_target(ts: Seq<TargetModel>, t: TargetModel) -> Seq<TargetModel> {
    let i = key_index(ts, t.key);
    if 0 <= i < ts.len() {
        if path_present_except(ts, t.path, i) {
            ts
        } else {
            ts.update(i, t)
        }
    } else if path_present(ts, t.path) || ts.len() + 1 >= u64::MAX {
        ts
    } else {
        insert_sorted(ts, t)
    }
}

/// One line of the flat or commented encodings applied to the model.
pub open spec fn apply_line_legacy(m: ConfigModel, raw: Seq<u8>) -> ConfigModel {
    match line_kv(raw) {
        Some((key, value)) => if key == kw_check_interval() {
            ConfigModel { poll_interval_seconds: interval_of(value), ..m }
        } else if key == kw_auto_start() {
            ConfigModel { auto_start_enabled: boolish(value), ..m }
        } else {
            match mt_key_num(key) {
                Some(n) => match triple_target(n, value) {
                    Some(t) => ConfigModel { targets: upsert_target(m.targets, t), ..m },
                    None => m,
                },
                None => m,
            }
        },
        None => m,
    }
}

/// One line of the structured encoding applied to the model; instances are
/// numbered in the order they appear.
pub open spec fn apply_line_structured(m: ConfigModel, raw: Seq<u8>) -> ConfigModel {
    match line_kv(raw) {
        Some((key, value)) => if key == kw_interval_seconds() {
            ConfigModel { poll_interval_seconds: interval_of(value), ..m }
        } else if key == kw_auto_enabled() {
            ConfigModel { auto_start_enabled: boolish(value), ..m }
        } else if key == kw_instance() {
            match triple_target((m.targets.len() + 1) as u64, value) {
                Some(t) => if !path_present(m.targets, t.path) && m.targets.len() + 1
                    < u64::MAX {
                    ConfigModel { targets: m.targets.push(t), ..m }
                } else {
                    m
                },
                None => m,
            }
        } else {
            m
        },
        None => m,
    }
}

pub open spec fn load_lines_legacy(m: ConfigModel, lines: Seq<Seq<u8>>) -> ConfigModel
    decreases lines.len(),
{
    if lines.len() == 0 {
        m
    } else {
        load_lines_legacy(apply_line_legacy(m, lines[0]), lines.skip(1))
    }
}

pub open spec fn load_lines_structured(m: ConfigModel, lines: Seq<Seq<u8>>) -> ConfigModel
    decreases lines.len(),
{
    if lines.len() == 0 {
        m
    } else {
        load_lines_structured(apply_line_structured(m, lines[0]), lines.skip(1))
    }
}

/// What loading the flat or commented encodings yields.
pub open spec fn spec_load_legacy(bytes: Seq<u8>) -> ConfigModel {
    load_lines_legacy(default_model(), split_lines(bytes))
}

/// What loading the structured encoding yields.
pub open spec fn spec_load_structured(bytes: Seq<u8>) -> ConfigModel {
    load_lines_structured(default_model(), split_lines(bytes))
}

pub proof fn lemma_load_lines_legacy_snoc(m: ConfigModel, lines: Seq<Seq<u8>>, l: Seq<u8>)
    ensures
        load_lines_legacy(m, lines.push(l)) == apply_line_legacy(load_lines_legacy(m, lines), l),
    decreases lines.len(),
{
    if lines.len() == 0 {
        assert(lines.push(l)[0] == l);
        assert(lines.push(l).skip(1) =~= Seq::<Seq<u8>>::empty());
        assert(load_lines_legacy(apply_line_legacy(m, l), Seq::<Seq<u8>>::empty())
            == apply_line_legacy(m, l));
        assert(load_lines_legacy(m, Seq::<Seq<u8>>::empty()) == m);
    } else {
        assert(lines.push(l)[0] == lines[0]);
        assert(lines.push(l).skip(1) =~= lines.skip(1).push(l));
        lemma_load_lines_legacy_snoc(apply_line_legacy(m, lines[0]), lines.skip(1), l);
        assert(load_lines_legacy(m, lines) == load_lines_legacy(
            apply_line_legacy(m, lines[0]),
            lines.skip(1),
        ));
    }
}

pub proof fn lemma_load_lines_structured_snoc(m: ConfigModel, lines: Seq<Seq<u8>>, l: Seq<u8>)
    ensures
        load_lines_structured(m, lines.push(l)) == apply_line_structured(
            load_lines_structured(m, lines),
            l,
        ),
    decreases lines.len(),
{
    if lines.len() == 0 {
        assert(lines.push(l)[0] == l);
        assert(lines.push(l).skip(1) =~= Seq::<Seq<u8>>::empty());
        assert(load_lines_structured(apply_line_structured(m, l), Seq::<Seq<u8>>::empty())
            == apply_line_structured(m, l));
        assert(load_lines_structured(m, Seq::<Seq<u8>>::empty()) == m);
    } else {
        assert(lines.push(l)[0] == lines[0]);
        assert(lines.push(l).skip(1) =~= lines.skip(1).push(l));
        lemma_load_lines_structured_snoc(apply_line_structured(m, lines[0]), lines.skip(1), l);
        assert(load_lines_structured(m, lines) == load_lines_structured(
            apply_line_structured(m, lines[0]),
            lines.skip(1),
        ));
    }
}

// ---------- reading preserves the invariants ----------

/// Keys are exactly 1..=n, as the structured loader assigns them.
pub open spec fn keys_sequential(ts: Seq<TargetModel>) -> bool {
    forall|i: int| 0 <= i < ts.len() ==> #[trigger] ts[i].key == i + 1
}

pub proof fn lemma_upsert_wf(ts: Seq<TargetModel>, t: TargetModel)
    requires
        targets_wf(ts),
        target_wf(t),
    ensures
        targets_wf(upsert_target(ts, t)),
{
    lemma_key_index(ts, t.key);
    let i = key_index(ts, t.key);
    if 0 <= i < ts.len() {
        if path_present_except(ts, t.path, i) {
        } else {
            let r = ts.update(i, t);
            assert(ts[i].key == t.key);
            assert forall|a: int, b: int| 0 <= a < b < r.len() implies r[a].key < r[b].key by {
                assert(ts[a].key < ts[b].key);
            }
            assert forall|a: int, b: int| 0 <= a < b < r.len() implies lower_bytes(r[a].path)
                != lower_bytes(r[b].path) by {
                if a != i && b != i {
                    assert(lower_bytes(ts[a].path) != lower_bytes(ts[b].path));
                }
            }
            assert forall|a: int| 0 <= a < r.len() implies target_wf(r[a]) by {
                if a != i {
                    assert(target_wf(ts[a]));
                }
            }
        }
    } else if path_present(ts, t.path) || ts.len() + 1 >= u64::MAX {
    } else {
        crate::config::lemma_insert_sorted_wf(ts, t);
    }
}

pub proof fn lemma_apply_legacy_wf(m: ConfigModel, raw: Seq<u8>)
    requires
        targets_wf(m.targets),
    ensures
        targets_wf(apply_line_legacy(m, raw).targets),
        apply_line_legacy(m, raw).poll_interval_seconds == m.poll_interval_seconds
            || 10 <= apply_line_legacy(m, raw).poll_interval_seconds <= 300,
{
    match line_kv(raw) {
        Some((key, value)) => {
            if key == kw_check_interval() {
            } else if key == kw_auto_start() {
            } else {
                match mt_key_num(key) {
                    Some(n) => match triple_target(n, value) {
                        Some(t) => {
                            lemma_upsert_wf(m.targets, t);
                        },
                        None => {},
                    },
                    None => {},
                }
            }
        },
        None => {},
    }
}

pub proof fn lemma_apply_structured_wf(m: ConfigModel, raw: Seq<u8>)
    requires
        targets_wf(m.targets),
        keys_sequential(m.targets),
    ensures
        targets_wf(apply_line_structured(m, raw).targets),
        keys_sequential(apply_line_structured(m, raw).targets),
        apply_line_structured(m, raw).poll_interval_seconds == m.poll_interval_seconds
            || 10 <= apply_line_structured(m, raw).poll_interval_seconds <= 300,
{
    let r = apply_line_structured(m, raw);
    match line_kv(raw) {
        Some((key, value)) => {
            if key == kw_interval_seconds() {
            } else if key == kw_auto_enabled() {
            } else if key == kw_instance() {
                match triple_target((m.targets.len() + 1) as u64, value) {
                    Some(t) => {
                        if !path_present(m.targets, t.path) && m.targets.len() + 1 < u64::MAX {
                            let ts2 = m.targets.push(t);
                            assert(t.key == m.targets.len() + 1);
                            assert forall|i: int| 0 <= i < ts2.len() implies #[trigger] ts2[i].key
                                == i + 1 by {
                                if i < m.targets.len() {
                                    assert(ts2[i] == m.targets[i]);
                                }
                            }
                            assert forall|a: int, b: int| 0 <= a < b < ts2.len() implies ts2[a].key
                                < ts2[b].key by {}
                            assert forall|a: int, b: int|
                                0 <= a < b < ts2.len() implies lower_bytes(ts2[a].path)
                                != lower_bytes(ts2[b].path) by {
                                if b == ts2.len() - 1 {
                                    assert(!path_present(m.targets, t.path));
                                }
                            }
                            assert forall|a: int| 0 <= a < ts2.len() implies target_wf(ts2[a]) by {}
                        }
                    },
                    None => {},
                }
            }
        },
        None => {},
    }
}

pub proof fn lemma_load_lines_legacy_wf(m: ConfigModel, lines: Seq<Seq<u8>>)
    requires
        targets_wf(m.targets),
        10 <= m.poll_interval_seconds <= 300,
    ensures
        config_wf(load_lines_legacy(m, lines)),
    decreases lines.len(),
{
    if lines.len() > 0 {
        lemma_apply_legacy_wf(m, lines[0]);
        lemma_load_lines_legacy_wf(apply_line_legacy(m, lines[0]), lines.skip(1));
    }
}

pub proof fn lemma_load_lines_structured_wf(m: ConfigModel, lines: Seq<Seq<u8>>)
    requires
        targets_wf(m.targets),
        keys_sequential(m.targets),
        10 <= m.poll_interval_seconds <= 300,
    ensures
        config_wf(load_lines_structured(m, lines)),
        keys_sequential(load_lines_structured(m, lines).targets),
    decreases lines.len(),
{
    if lines.len() > 0 {
        lemma_apply_structured_wf(m, lines[0]);
        lemma_load_lines_structured_wf(apply_line_structured(m, lines[0]), lines.skip(1));
    }
}


// ---------- exec reading ----------

/// The encoding a configuration file was found to use.
#[derive(Clone, Copy, Debug, PartialEq, Eq, Structural)]
pub enum Encoding {
    /// `check_interval_seconds` fields with typed booleans.
    Structured,
    /// Bare `CheckInterval`/`AutoStart`/`MT_<n>` keys.
    Flat,
    /// The same keys with comment and section scaffolding.
    Ini,
}

/// Splits one raw line into its trimmed key and value, if it has any.
fn line_kv_vec(raw: &[u8]) -> (r: Option<(Vec<u8>, Vec<u8>)>)
    ensures
        match r {
            Some(kv) => line_kv(raw@) == Some((kv.0@, kv.1@)),
            None => line_kv(raw@) == None::<(Seq<u8>, Seq<u8>)>,
        },
{
    let l = crate::text::trim_vec(raw);
    if l.len() == 0 {
        return None;
    }
    let first = l[0];
    if first == 59 || first == 91 {
        return None;
    }
    match crate::text::find_byte_vec(l.as_slice(), 61) {
        None => None,
        Some(p) => {
            let rawkey = crate::text::sub_bytes(l.as_slice(), 0, p);
            let rawval = crate::text::sub_bytes(l.as_slice(), p + 1, l.len());
            proof {
                assert(rawkey@ =~= trim(raw@).take(p as int));
                assert(rawval@ =~= trim(raw@).skip(p as int + 1));
            }
            let key = crate::text::trim_vec(rawkey.as_slice());
            let value = crate::text::trim_vec(rawval.as_slice());
            Some((key, value))
        },
    }
}

/// Reads a poll interval value, falling back to 30.
fn parse_interval(v: &[u8]) -> (r: u64)
    ensures
        r == interval_of(v@),
{
    match crate::text::parse_u64_vec(v) {
        Some(n) => if 10 <= n && n <= 300 {
            n
        } else {
            30
        },
        None => 30,
    }
}

/// Reads the number of an `MT_<n>` key.
fn mt_key_num_vec(key: &[u8]) -> (r: Option<u64>)
    ensures
        r == mt_key_num(key@),
{
    proof {
        reveal_strlit("MT_");
        assert(kw_mt_prefix() =~= seq![77u8, 84u8, 95u8]);
    }
    if key.len() > 3 && key[0] == 77 && key[1] == 84 && key[2] == 95 {
        proof {
            assert(key@.take(3) =~= kw_mt_prefix());
        }
        crate::text::parse_u64_vec(crate::text::sub_bytes(key, 3, key.len()).as_slice())
    } else {
        proof {
            if key@.len() > 3 {
                assert(key@.take(3)[0] == key@[0] && key@.take(3)[1] == key@[1] && key@.take(3)[2]
                    == key@[2]);
            }
        }
        None
    }
}

/// Reads one `enabled|name|path` value as a target under `key_num`.
fn triple_vec(key_num: u64, v: &[u8]) -> (r: Option<WatchTarget>)
    ensures
        match r {
            Some(t) => triple_target(key_num, v@) == Some(t@),
            None => triple_target(key_num, v@) == None::<TargetModel>,
        },
{
    let vlen = v.len();
    let i = match crate::text::find_byte_vec(v, 124) {
        None => {
            return None;
        },
        Some(i) => i,
    };
    let rest = crate::text::sub_bytes(v, i + 1, vlen);
    proof {
        assert(rest@ =~= v@.skip(i as int + 1));
    }
    let rlen = rest.len();
    let j = match crate::text::find_byte_vec(rest.as_slice(), 124) {
        None => {
            return None;
        },
        Some(j) => j,
    };
    let third = crate::text::sub_bytes(rest.as_slice(), j + 1, rlen);
    proof {
        assert(third@ =~= rest@.skip(j as int + 1));
    }
    if let Some(_k) = crate::text::find_byte_vec(third.as_slice(), 124) {
        return None;
    }
    let name = crate::text::sub_bytes(rest.as_slice(), 0, j);
    proof {
        assert(name@ =~= rest@.take(j as int));
    }
    if !(crate::config::check_text_ok(name.as_slice()) && crate::config::check_path_ok(
        third.as_slice(),
    )) {
        return None;
    }
    let tok = crate::text::sub_bytes(v, 0, i);
    proof {
        assert(tok@ =~= v@.take(i as int));
    }
    let enabled = crate::text::parse_boolish(tok.as_slice());
    Some(WatchTarget { key: key_num, name: name, path: third, enabled: enabled })
}

/// Applies one `MT_<n>` entry to the watch-list, as `upsert_target` says.
fn upsert_vec(targets: &mut Vec<WatchTarget>, t: WatchTarget)
    requires
        targets_wf(crate::config::tview(old(targets)@)),
        target_wf(t@),
    ensures
        crate::config::tview(final(targets)@) == upsert_target(
            crate::config::tview(old(targets)@),
            t@,
        ),
        targets_wf(crate::config::tview(final(targets)@)),
{
    let ghost ts = crate::config::tview(targets@);
    proof {
        lemma_key_index(ts, t@.key);
        lemma_upsert_wf(ts, t@);
    }
    let n = targets.len();
    // find the position of an existing entry with the same key
    let mut idx: Option<usize> = None;
    let mut i: usize = 0;
    while i < n
        invariant
            n == targets@.len(),
            i <= n,
            ts == crate::config::tview(targets@),
            match idx {
                Some(p) => p < i && ts[p as int].key == t@.key,
                None => forall|m: int| 0 <= m < i ==> ts[m].key != t@.key,
            },
        decreases n - i,
    {
        if idx.is_none() && targets[i].key == t.key {
            idx = Some(i);
        }
        i = i + 1;
    }
    match idx {
        Some(p) => {
            proof {
                // the spec picks the first (and only) index with this key
                assert(key_index(ts, t@.key) == p as int) by {
                    lemma_key_index(ts, t@.key);
                    let q = key_index(ts, t@.key);
                    if q < p as int {
                        assert(ts[q].key == t@.key);
                    }
                    if q > p as int {
                        assert(forall|m: int| 0 <= m < q ==> ts[m].key != t@.key);
                    }
                }
            }
            // an entry whose path collides with a different target is dropped
            let lp = crate::text::lower_vec(t.path.as_slice());
            let mut j: usize = 0;
            while j < n
                invariant
                    n == targets@.len(),
                    j <= n,
                    ts == crate::config::tview(targets@),
                    p < n,
                    targets_wf(ts),
                    target_wf(t@),
                    key_index(ts, t@.key) == p as int,
                    ts[p as int].key == t@.key,
                    lp@ == lower_bytes(t@.path),
                    forall|m: int|
                        0 <= m < j && m != p as int ==> lower_bytes(ts[m].path) != lower_bytes(
                            t@.path,
                        ),
                decreases n - j,
            {
                if j != p {
                    let cand = crate::text::lower_vec(targets[j].path.as_slice());
                    if crate::text::bytes_eq(cand.as_slice(), lp.as_slice()) {
                        proof {
                            assert(ts[j as int] == targets@[j as int]@);
                            assert(lower_bytes(ts[j as int].path) == lower_bytes(t@.path));
                            assert((j as int) < ts.len() && j as int != p as int
                                && lower_bytes(ts[j as int].path) == lower_bytes(t@.path));
                            assert(path_present_except(ts, t@.path, p as int));
                        }
                        return ;
                    }
                }
                j = j + 1;
            }
            proof {
                assert(!path_present_except(ts, t@.path, p as int));
            }
            targets.set(p, t);
            proof {
                assert(crate::config::tview(targets@) =~= ts.update(p as int, t@));
            }
        },
        None => {
            proof {
                assert(!key_used(ts, t@.key));
                assert(key_index(ts, t@.key) == -1) by {
                    lemma_key_index(ts, t@.key);
                    if key_index(ts, t@.key) >= 0 {
                        assert(key_used(ts, t@.key));
                    }
                }
            }
            // a new key: drop the entry if its path is already watched
            let lp = crate::text::lower_vec(t.path.as_slice());
            let mut j: usize = 0;
            while j < n
                invariant
                    n == targets@.len(),
                    j <= n,
                    ts == crate::config::tview(targets@),
                    targets_wf(ts),
                    target_wf(t@),
                    key_index(ts, t@.key) == -1,
                    !key_used(ts, t@.key),
                    lp@ == lower_bytes(t@.path),
                    forall|m: int|
                        0 <= m < j ==> lower_bytes(ts[m].path) != lower_bytes(t@.path),
                decreases n - j,
            {
                let cand = crate::text::lower_vec(targets[j].path.as_slice());
                if crate::text::bytes_eq(cand.as_slice(), lp.as_slice()) {
                    proof {
                        assert(ts[j as int] == targets@[j as int]@);
                        assert((j as int) < ts.len() && lower_bytes(ts[j as int].path)
                            == lower_bytes(t@.path));
                        assert(path_present(ts, t@.path));
                    }
                    return ;
                }
                j = j + 1;
            }
            proof {
                assert(!path_present(ts, t@.path));
            }
            if (n as u64) >= u64::MAX - 1 {
                return ;
            }
            proof {
                assert(ts.len() + 1 < u64::MAX);
            }
            // insert at the sorted position
            let mut pos: usize = 0;
            while pos < n && targets[pos].key < t.key
                invariant
                    n == targets@.len(),
                    pos <= n,
                    ts == crate::config::tview(targets@),
                    targets_wf(ts),
                    target_wf(t@),
                    key_index(ts, t@.key) == -1,
                    !key_used(ts, t@.key),
                    !path_present(ts, t@.path),
                    ts.len() + 1 < u64::MAX,
                    forall|m: int| 0 <= m < pos ==> ts[m].key < t@.key,
                decreases n - pos,
            {
                pos = pos + 1;
            }
            proof {
                crate::config::lemma_insert_sorted_at(ts, t@, pos as int);
                crate::config::lemma_insert_sorted_wf(ts, t@);
            }
            targets.insert(pos, t);
            proof {
                assert(crate::config::tview(targets@) =~= ts.insert(pos as int, t@));
            }
        },
    }
}

/// Applies one line of the flat or commented encodings.
fn apply_line_legacy_vec(c: &mut WatchConfig, raw: &[u8])
    requires
        targets_wf(old(c)@.targets),
    ensures
        final(c)@ == apply_line_legacy(old(c)@, raw@),
        targets_wf(final(c)@.targets),
{
    proof {
        lemma_apply_legacy_wf(old(c)@, raw@);
        reveal_strlit("CheckInterval");
        reveal_strlit("AutoStart");
    }
    let kv = match line_kv_vec(raw) {
        None => {
            return ;
        },
        Some(kv) => kv,
    };
    let (key, value) = kv;
    let k_interval = lit_bytes("CheckInterval");
    let k_auto = lit_bytes("AutoStart");
    if crate::text::bytes_eq(key.as_slice(), k_interval.as_slice()) {
        c.poll_interval_seconds = parse_interval(value.as_slice());
        proof {
            assert(c@ =~~= apply_line_legacy(old(c)@, raw@));
        }
    } else if crate::text::bytes_eq(key.as_slice(), k_auto.as_slice()) {
        c.auto_start_enabled = crate::text::parse_boolish(value.as_slice());
        proof {
            assert(c@ =~~= apply_line_legacy(old(c)@, raw@));
        }
    } else {
        let n = match mt_key_num_vec(key.as_slice()) {
            None => {
                return ;
            },
            Some(n) => n,
        };
        let t = match triple_vec(n, value.as_slice()) {
            None => {
                return ;
            },
            Some(t) => t,
        };
        proof {
            assert(target_wf(t@));
        }
        upsert_vec(&mut c.targets, t);
        proof {
            assert(c@ =~~= apply_line_legacy(old(c)@, raw@));
        }
    }
}

/// Applies one line of the structured encoding.
fn apply_line_structured_vec(c: &mut WatchConfig, raw: &[u8])
    requires
        targets_wf(old(c)@.targets),
        keys_sequential(old(c)@.targets),
    ensures
        final(c)@ == apply_line_structured(old(c)@, raw@),
        targets_wf(final(c)@.targets),
        keys_sequential(final(c)@.targets),
{
    proof {
        lemma_apply_structured_wf(old(c)@, raw@);
        reveal_strlit("check_interval_seconds");
        reveal_strlit("auto_start_enabled");
        reveal_strlit("mt4_instance");
    }
    let kv = match line_kv_vec(raw) {
        None => {
            return ;
        },
        Some(kv) => kv,
    };
    let (key, value) = kv;
    let k_interval = lit_bytes("check_interval_seconds");
    let k_auto = lit_bytes("auto_start_enabled");
    let k_inst = lit_bytes("mt4_instance");
    if crate::text::bytes_eq(key.as_slice(), k_interval.as_slice()) {
        c.poll_interval_seconds = parse_interval(value.as_slice());
        proof {
            assert(c@ =~~= apply_line_structured(old(c)@, raw@));
        }
    } else if crate::text::bytes_eq(key.as_slice(), k_auto.as_slice()) {
        c.auto_start_enabled = crate::text::parse_boolish(value.as_slice());
        proof {
            assert(c@ =~~= apply_line_structured(old(c)@, raw@));
        }
    } else if crate::text::bytes_eq(key.as_slice(), k_inst.as_slice()) {
        let n = c.targets.len();
        let ghost ts = c@.targets;
        let fits = (n as u64) < u64::MAX - 1;
        let key_num: u64 = if fits {
            (n as u64) + 1
        } else {
            1
        };
        let t = match triple_vec(key_num, value.as_slice()) {
            None => {
                return ;
            },
            Some(t) => t,
        };
        if !fits {
            proof {
                assert(ts.len() + 1 >= u64::MAX);
            }
            return ;
        }
        proof {
            assert(key_num == (ts.len() + 1) as u64);
            assert(triple_target((ts.len() + 1) as u64, value@) == Some(t@));
        }
        if let Some(_i) = crate::config::find_path_in(&c.targets, t.path.as_slice()) {
            return ;
        }
        push_target(c, t);
        proof {
            assert(c@ =~~= apply_line_structured(old(c)@, raw@));
        }
    }
}

/// Appends one target.
fn push_target(c: &mut WatchConfig, t: WatchTarget)
    ensures
        final(c)@ == (ConfigModel { targets: old(c)@.targets.push(t@), ..old(c)@ }),
{
    c.targets.push(t);
    proof {
        assert(c@ =~~= (ConfigModel { targets: old(c)@.targets.push(t@), ..old(c)@ }));
    }
}

/// Loads the flat or commented encodings; unreadable parts fall back to
/// the defaults, so loading never fails.
pub fn load_legacy(bytes: &[u8]) -> (c: WatchConfig)
    ensures
        c@ == spec_load_legacy(bytes@),
        config_wf(c@),
{
    let lines = crate::text::split_lines_vec(bytes);
    let ghost dv = lines.deep_view();
    let mut c = WatchConfig::default();
    let n = lines.len();
    let mut i: usize = 0;
    proof {
        assert(dv.take(0) =~= Seq::<Seq<u8>>::empty());
    }
    let ghost m0 = default_model();
    while i < n
        invariant
            n == lines@.len(),
            i <= n,
            dv == lines.deep_view(),
            dv == split_lines(bytes@),
            c@ == load_lines_legacy(m0, dv.take(i as int)),
            m0 == default_model(),
            targets_wf(c@.targets),
            10 <= c@.poll_interval_seconds <= 300,
        decreases n - i,
    {
        let ghost prev = c@;
        proof {
            assert(lines@[i as int]@ == dv[i as int]);
            lemma_apply_legacy_wf(prev, dv[i as int]);
        }
        apply_line_legacy_vec(&mut c, lines[i].as_slice());
        proof {
            lemma_load_lines_legacy_snoc(m0, dv.take(i as int), dv[i as int]);
            assert(dv.take(i as int).push(dv[i as int]) =~= dv.take(i as int + 1));
        }
        i = i + 1;
    }
    proof {
        assert(dv.take(n as int) =~= dv);
    }
    c
}

/// Loads the structured encoding; instances are keyed 1, 2, ... in file
/// order. Loading never fails.
pub fn load_structured(bytes: &[u8]) -> (c: WatchConfig)
    ensures
        c@ == spec_load_structured(bytes@),
        config_wf(c@),
{
    let lines = crate::text::split_lines_vec(bytes);
    let ghost dv = lines.deep_view();
    let mut c = WatchConfig::default();
    let n = lines.len();
    let mut i: usize = 0;
    proof {
        assert(dv.take(0) =~= Seq::<Seq<u8>>::empty());
    }
    let ghost m0 = default_model();
    while i < n
        invariant
            n == lines@.len(),
            i <= n,
            dv == lines.deep_view(),
            dv == split_lines(bytes@),
            c@ == load_lines_structured(m0, dv.take(i as int)),
            m0 == default_model(),
            targets_wf(c@.targets),
            keys_sequential(c@.targets),
            10 <= c@.poll_interval_seconds <= 300,
        decreases n - i,
    {
        let ghost prev = c@;
        proof {
            assert(lines@[i as int]@ == dv[i as int]);
            lemma_apply_structured_wf(prev, dv[i as int]);
        }
        apply_line_structured_vec(&mut c, lines[i].as_slice());
        proof {
            lemma_load_lines_structured_snoc(m0, dv.take(i as int), dv[i as int]);
            assert(dv.take(i as int).push(dv[i as int]) =~= dv.take(i as int + 1));
        }
        i = i + 1;
    }
    proof {
        assert(dv.take(n as int) =~= dv);
    }
    c
}

// ---------- encoding detection ----------

/// A line that names one of the structured keys.
pub open spec fn line_is_structured(raw: Seq<u8>) -> bool {
    match line_kv(raw) {
        Some(kv) => kv.0 == kw_interval_seconds() || kv.0 == kw_auto_enabled() || kv.0
            == kw_instance(),
        None => false,
    }
}

/// A comment or section line, the mark of the commented encoding.
pub open spec fn line_is_marker(raw: Seq<u8>) -> bool {
    let l = trim(raw);
    l.len() > 0 && (l[0] == 59 || l[0] == 91)
}

/// Which encoding a file uses: structured keys win, then comment or
/// section scaffolding, else the flat form.
pub open spec fn spec_detect(bytes: Seq<u8>) -> Encoding {
    let lines = split_lines(bytes);
    if exists|i: int| 0 <= i < lines.len() && line_is_structured(lines[i]) {
        Encoding::Structured
    } else if exists|i: int| 0 <= i < lines.len() && line_is_marker(lines[i]) {
        Encoding::Ini
    } else {
        Encoding::Flat
    }
}

/// Sniffs the encoding of a configuration file.
pub fn detect_encoding(bytes: &[u8]) -> (e: Encoding)
    ensures
        e == spec_detect(bytes@),
{
    proof {
        reveal_strlit("check_interval_seconds");
        reveal_strlit("auto_start_enabled");
        reveal_strlit("mt4_instance");
    }
    let k_interval = lit_bytes("check_interval_seconds");
    let k_auto = lit_bytes("auto_start_enabled");
    let k_inst = lit_bytes("mt4_instance");
    let lines = crate::text::split_lines_vec(bytes);
    let ghost dv = lines.deep_view();
    let n = lines.len();
    let mut i: usize = 0;
    while i < n
        invariant
            n == lines@.len(),
            dv == lines.deep_view(),
            dv == split_lines(bytes@),
            i <= n,
            k_interval@ == kw_interval_seconds(),
            k_auto@ == kw_auto_enabled(),
            k_inst@ == kw_instance(),
            forall|m: int| 0 <= m < i ==> !line_is_structured(dv[m]),
        decreases n - i,
    {
        proof {
            assert(lines@[i as int]@ == dv[i as int]);
        }
        match line_kv_vec(lines[i].as_slice()) {
            Some(kv) => {
                let hit = crate::text::bytes_eq(kv.0.as_slice(), k_interval.as_slice())
                    || crate::text::bytes_eq(kv.0.as_slice(), k_auto.as_slice())
                    || crate::text::bytes_eq(kv.0.as_slice(), k_inst.as_slice());
                if hit {
                    proof {
                        assert(line_is_structured(dv[i as int]));
                    }
                    return Encoding::Structured;
                }
            },
            None => {},
        }
        i = i + 1;
    }
    let mut j: usize = 0;
    while j < n
        invariant
            n == lines@.len(),
            dv == lines.deep_view(),
            dv == split_lines(bytes@),
            j <= n,
            forall|m: int| 0 <= m < n ==> !line_is_structured(dv[m]),
            forall|m: int| 0 <= m < j ==> !line_is_marker(dv[m]),
        decreases n - j,
    {
        proof {
            assert(lines@[j as int]@ == dv[j as int]);
        }
        let l = crate::text::trim_vec(lines[j].as_slice());
        if l.len() > 0 {
            let b = l[0];
            if b == 59 || b == 91 {
                proof {
                    assert(line_is_marker(dv[j as int]));
                }
                return Encoding::Ini;
            }
        }
        j = j + 1;
    }
    Encoding::Flat
}

// ---------- the public store interface ----------

/// What loading under a given encoding yields.
pub open spec fn spec_load(bytes: Seq<u8>, e: Encoding) -> ConfigModel {
    match e {
        Encoding::Structured => spec_load_structured(bytes),
        Encoding::Flat => spec_load_legacy(bytes),
        Encoding::Ini => spec_load_legacy(bytes),
    }
}

/// What saving under a given encoding writes.
pub open spec fn spec_save(m: ConfigModel, e: Encoding) -> Seq<u8> {
    match e {
        Encoding::Structured => spec_save_structured(m),
        Encoding::Flat => spec_save_flat(m),
        Encoding::Ini => spec_save_ini(m),
    }
}

/// Loads a configuration file under the given encoding; never fails.
pub fn load_with(bytes: &[u8], e: Encoding) -> (c: WatchConfig)
    ensures
        c@ == spec_load(bytes@, e),
        config_wf(c@),
{
    match e {
        Encoding::Structured => load_structured(bytes),
        Encoding::Flat => load_legacy(bytes),
        Encoding::Ini => load_legacy(bytes),
    }
}

/// Serializes a configuration under the given encoding.
pub fn save_with(c: &WatchConfig, e: Encoding) -> (out: Vec<u8>)
    ensures
        out@ == spec_save(c@, e),
{
    match e {
        Encoding::Structured => save_structured(c),
        Encoding::Flat => save_flat(c),
        Encoding::Ini => save_ini(c),
    }
}

/// Sniffs the encoding, then loads; the pair also says which encoding a
/// later save should use to stay in the file's own dialect.
pub fn load_auto(bytes: &[u8]) -> (r: (WatchConfig, Encoding))
    ensures
        r.1 == spec_detect(bytes@),
        r.0@ == spec_load(bytes@, r.1),
        config_wf(r.0@),
{
    let e = detect_encoding(bytes);
    let c = load_with(bytes, e);
    (c, e)
}

} // verus!

//! The round-trip laws of the configuration store: saving a well-formed
//! configuration under any of the three encodings and loading the result
//! restores the configuration, and encoding detection recognizes what it
//! wrote. The key/value encodings restore it exactly, keys included; the
//! structured encoding carries no keys, so loading re-numbers the targets
//! 1, 2, ... in order and everything else is restored exactly.
use vstd::prelude::*;

use crate::codec::{
    apply_line_legacy, apply_line_structured, entry_line_mt, entry_line_structured, flat_lines,
    ini_lines, join_nl, key_index, kw_auto_enabled, kw_auto_start, kw_check_interval,
    kw_instance, kw_interval_seconds, kw_mt_prefix, line_kv, load_lines_legacy,
    load_lines_structured, mt_key_num, spec_detect, spec_load, spec_load_legacy,
    spec_load_structured, spec_save, spec_save_flat, spec_save_ini, spec_save_structured, split3,
    structured_lines, triple_target, upsert_target, Encoding, lemma_key_index,
    line_is_marker, line_is_structured,
};
use crate::config::{
    config_wf, default_model, insert_sorted, key_used, path_present, target_wf, targets_wf,
    ConfigModel, TargetModel,
};
use crate::text::{
    all_digits, bool_token, boolish, dec_digits, is_ws, lit, lower_bytes, no_byte, parse_u64,
    split_lines, lemma_dec_digits_val, lemma_find_byte_at, lemma_find_byte_none,
    lemma_split_lines_step, lemma_trim_stable,
};

verus! {

// ---------- joining then splitting gives the lines back ----------

/// Splitting a joined rendering recovers the lines, as long as no line
/// holds a line feed itself.
pub proof fn lemma_split_join(lines: Seq<Seq<u8>>)
    requires
        forall|i: int| 0 <= i < lines.len() ==> no_byte(#[trigger] lines[i], 10),
    ensures
        split_lines(join_nl(lines)) == lines,
    decreases lines.len(),
{
    if lines.len() == 0 {
        assert(split_lines(join_nl(lines)) =~= lines);
    } else {
        lemma_split_lines_step(lines[0], join_nl(lines.skip(1)));
        assert(lines[0] + seq![10u8] + join_nl(lines.skip(1)) == join_nl(lines));
        assert forall|i: int| 0 <= i < lines.skip(1).len() implies no_byte(
            #[trigger] lines.skip(1)[i],
            10,
        ) by {
            assert(lines.skip(1)[i] == lines[i + 1]);
        }
        lemma_split_join(lines.skip(1));
        assert(seq![lines[0]] + lines.skip(1) =~= lines);
    }
}

// ---------- shapes of the rendered pieces ----------

/// A key as the savers write one: non-empty, free of `=`, line breaks and
/// whitespace at the ends, and not opening like a comment or section.
pub open spec fn key_clean(k: Seq<u8>) -> bool {
    &&& k.len() > 0
    &&& no_byte(k, 61)
    &&& no_byte(k, 10)
    &&& !is_ws(k[0])
    &&& !is_ws(k[k.len() - 1])
    &&& k[0] != 59
    &&& k[0] != 91
}

/// A boolean token as the savers write one.
pub open spec fn tok_clean(t: Seq<u8>) -> bool {
    &&& t.len() > 0
    &&& no_byte(t, 124)
    &&& no_byte(t, 10)
    &&& !is_ws(t[0])
    &&& !is_ws(t[t.len() - 1])
}

/// A comment or section line as the commented saver writes one.
pub open spec fn marker_clean(l: Seq<u8>) -> bool {
    &&& l.len() > 0
    &&& no_byte(l, 10)
    &&& !is_ws(l[0])
    &&& !is_ws(l[l.len() - 1])
    &&& (l[0] == 59 || l[0] == 91)
}

/// The fixed keys are clean, mutually distinct, and open with the bytes
/// the dispatching relies on.
pub proof fn lemma_key_facts()
    ensures
        key_clean(kw_check_interval()),
        key_clean(kw_auto_start()),
        key_clean(kw_interval_seconds()),
        key_clean(kw_auto_enabled()),
        key_clean(kw_instance()),
        kw_check_interval() != kw_auto_start(),
        kw_interval_seconds() != kw_auto_enabled(),
        kw_interval_seconds() != kw_instance(),
        kw_auto_enabled() != kw_instance(),
        kw_mt_prefix() =~= seq![77u8, 84u8, 95u8],
        kw_check_interval()[0] == 67,
        kw_auto_start()[0] == 65,
        kw_interval_seconds()[0] == 99,
        kw_auto_enabled()[0] == 97,
        kw_instance()[0] == 109,
        kw_check_interval().len() == 13,
        kw_auto_start().len() == 9,
        kw_interval_seconds().len() == 22,
        kw_auto_enabled().len() == 18,
        kw_instance().len() == 12,
{
    reveal_strlit("CheckInterval");
    reveal_strlit("AutoStart");
    reveal_strlit("check_interval_seconds");
    reveal_strlit("auto_start_enabled");
    reveal_strlit("mt4_instance");
    reveal_strlit("MT_");
}

/// The boolean tokens are clean and read back as the value they render.
pub proof fn lemma_tok_facts()
    ensures
        forall|b: bool| tok_clean(#[trigger] crate::codec::tok_flat(b)),
        forall|b: bool| tok_clean(#[trigger] crate::codec::tok_ini(b)),
        forall|b: bool| tok_clean(#[trigger] crate::codec::tok_structured(b)),
        forall|b: bool| boolish(#[trigger] crate::codec::tok_flat(b)) == b,
        forall|b: bool| boolish(#[trigger] crate::codec::tok_ini(b)) == b,
        forall|b: bool| boolish(#[trigger] crate::codec::tok_structured(b)) == b,
{
    reveal_strlit("1");
    reveal_strlit("0");
    reveal_strlit("ON");
    reveal_strlit("OFF");
    reveal_strlit("true");
    reveal_strlit("false");
    reveal_strlit("on");
    reveal_strlit("off");
    assert(lower_bytes(lit("1")) =~= lit("1"));
    assert(lower_bytes(lit("0")) =~= lit("0"));
    assert(lower_bytes(lit("ON")) =~= lit("on"));
    assert(lower_bytes(lit("OFF")) =~= lit("off"));
    assert(lower_bytes(lit("true")) =~= lit("true"));
    assert(lower_bytes(lit("false")) =~= lit("false"));
    assert(lit("0") != lit("on") && lit("0") != lit("true") && lit("0")[0] != lit("1")[0]);
    assert(lit("off") != lit("on") && lit("off") != lit("true") && lit("off") != lit("1"));
    assert(lit("false") != lit("on") && lit("false") != lit("true") && lit("false") != lit("1"));
    assert(bool_token(lit("1")) == Some(true));
    assert(bool_token(lit("0")) == Some(false));
    assert(bool_token(lit("ON")) == Some(true));
    assert(bool_token(lit("OFF")) == Some(false));
    assert(bool_token(lit("true")) == Some(true));
    assert(bool_token(lit("false")) == Some(false));
}

/// The comment and section scaffolding lines are markers.
pub proof fn lemma_scaffold_facts()
    ensures
        marker_clean(lit("; MetaGuard configuration")),
        marker_clean(lit("[Settings]")),
        marker_clean(lit("; seconds between watchdog ticks, 10 to 300")),
        marker_clean(lit("; start with Windows: ON or OFF")),
        marker_clean(lit("[MT4_MT5]")),
        marker_clean(lit("; MT_<n>=ON|display name|full path of terminal.exe")),
{
    reveal_strlit("; MetaGuard configuration");
    reveal_strlit("[Settings]");
    reveal_strlit("; seconds between watchdog ticks, 10 to 300");
    reveal_strlit("; start with Windows: ON or OFF");
    reveal_strlit("[MT4_MT5]");
    reveal_strlit("; MT_<n>=ON|display name|full path of terminal.exe");
}

/// A non-empty all-digit string is a clean token and key tail.
pub proof fn lemma_digits_clean(s: Seq<u8>)
    requires
        s.len() > 0,
        all_digits(s),
    ensures
        no_byte(s, 61),
        no_byte(s, 10),
        no_byte(s, 124),
        !is_ws(s[0]),
        !is_ws(s[s.len() - 1]),
{
}

// ---------- parsing what the savers render ----------

/// A marker line is skipped by the key/value reading.
pub proof fn lemma_marker_skipped(l: Seq<u8>)
    requires
        marker_clean(l),
    ensures
        line_kv(l) == None::<(Seq<u8>, Seq<u8>)>,
        line_is_marker(l),
        !line_is_structured(l),
{
    lemma_trim_stable(l);
}

/// A rendered `key=value` line splits back into exactly that key and value.
pub proof fn lemma_line_kv_rendered(k: Seq<u8>, v: Seq<u8>)
    requires
        key_clean(k),
        v.len() > 0 ==> !is_ws(v[0]) && !is_ws(v[v.len() - 1]),
    ensures
        line_kv(k + seq![61u8] + v) == Some((k, v)),
        !line_is_marker(k + seq![61u8] + v),
{
    let l = k + seq![61u8] + v;
    assert(l[0] == k[0]);
    if v.len() > 0 {
        assert(l[l.len() - 1] == v[v.len() - 1]);
    } else {
        assert(l[l.len() - 1] == 61);
    }
    lemma_trim_stable(l);
    assert forall|m: int| 0 <= m < k.len() implies l[m] != 61 by {
        assert(l[m] == k[m]);
    }
    assert(l[k.len() as int] == 61);
    lemma_find_byte_at(l, 61, k.len() as int);
    assert(l.take(k.len() as int) =~= k);
    assert(l.skip(k.len() as int + 1) =~= v);
    lemma_trim_stable(k);
    lemma_trim_stable(v);
}

/// A rendered `tok|name|path` value splits back into its three fields.
pub proof fn lemma_split3_rendered(tok: Seq<u8>, name: Seq<u8>, path: Seq<u8>)
    requires
        no_byte(tok, 124),
        no_byte(name, 124),
        no_byte(path, 124),
    ensures
        split3(tok + seq![124u8] + name + seq![124u8] + path) == Some((tok, name, path)),
{
    let v = tok + seq![124u8] + name + seq![124u8] + path;
    assert forall|m: int| 0 <= m < tok.len() implies v[m] != 124 by {
        assert(v[m] == tok[m]);
    }
    assert(v[tok.len() as int] == 124);
    lemma_find_byte_at(v, 124, tok.len() as int);
    let rest = v.skip(tok.len() as int + 1);
    assert(rest =~= name + seq![124u8] + path);
    assert forall|m: int| 0 <= m < name.len() implies rest[m] != 124 by {
        assert(rest[m] == name[m]);
    }
    assert(rest[name.len() as int] == 124);
    lemma_find_byte_at(rest, 124, name.len() as int);
    let third = rest.skip(name.len() as int + 1);
    assert(third =~= path);
    lemma_find_byte_none(third, 124);
    assert(v.take(tok.len() as int) =~= tok);
    assert(rest.take(name.len() as int) =~= name);
}

/// A rendered target entry value reads back as the target it renders,
/// under whichever key number the reader assigns.
pub proof fn lemma_triple_rendered(k: u64, t: TargetModel, tok: Seq<u8>)
    requires
        target_wf(t),
        tok_clean(tok),
    ensures
        triple_target(k, tok + seq![124u8] + t.name + seq![124u8] + t.path) == Some(
            TargetModel { key: k, name: t.name, path: t.path, enabled: boolish(tok) },
        ),
{
    lemma_split3_rendered(tok, t.name, t.path);
}

/// A rendered `MT_<n>` key reads back as the number `n`, and is clean.
pub proof fn lemma_mt_key(n: u64)
    ensures
        mt_key_num(kw_mt_prefix() + dec_digits(n as nat)) == Some(n),
        key_clean(kw_mt_prefix() + dec_digits(n as nat)),
        (kw_mt_prefix() + dec_digits(n as nat))[0] == 77,
        mt_key_num(kw_check_interval()) == None::<u64>,
        mt_key_num(kw_auto_start()) == None::<u64>,
        kw_mt_prefix() + dec_digits(n as nat) != kw_check_interval(),
        kw_mt_prefix() + dec_digits(n as nat) != kw_auto_start(),
{
    lemma_key_facts();
    lemma_dec_digits_val(n as nat);
    let d = dec_digits(n as nat);
    let k = kw_mt_prefix() + d;
    lemma_digits_clean(d);
    assert(k.take(3) =~= kw_mt_prefix());
    assert(k.skip(3) =~= d);
    assert(parse_u64(d) == Some(n));
    assert(k[0] == 77 && k[1] == 84 && k[2] == 95);
    assert forall|m: int| 0 <= m < k.len() implies k[m] != 61 by {
        if m >= 3 {
            assert(k[m] == d[m - 3]);
        }
    }
    assert(k[k.len() - 1] == d[d.len() - 1]);
    if kw_check_interval().len() > 3 {
        assert(kw_check_interval().take(3)[0] == kw_check_interval()[0]);
    }
    if kw_auto_start().len() > 3 {
        assert(kw_auto_start().take(3)[0] == kw_auto_start()[0]);
    }
}


// ---------- folding the rendered entries back into the list ----------

/// Inserting a target whose key is above every present key appends it.
pub proof fn lemma_insert_sorted_append(ts: Seq<TargetModel>, t: TargetModel)
    requires
        forall|i: int| 0 <= i < ts.len() ==> ts[i].key < t.key,
    ensures
        insert_sorted(ts, t) == ts.push(t),
    decreases ts.len(),
{
    if ts.len() == 0 {
        assert(insert_sorted(ts, t) =~= ts.push(t));
    } else {
        assert forall|i: int| 0 <= i < ts.skip(1).len() implies ts.skip(1)[i].key < t.key by {
            assert(ts.skip(1)[i] == ts[i + 1]);
        }
        lemma_insert_sorted_append(ts.skip(1), t);
        assert(seq![ts[0]] + ts.skip(1).push(t) =~= ts.push(t));
    }
}

/// Reading the rendered `MT_<n>` entries after the header lines rebuilds
/// exactly the remaining targets, in order.
proof fn lemma_load_mt_entries(
    cur: ConfigModel,
    full: Seq<TargetModel>,
    k: int,
    tokf: spec_fn(bool) -> Seq<u8>,
)
    requires
        targets_wf(full),
        0 <= k <= full.len(),
        cur.targets == full.take(k),
        forall|b: bool| tok_clean(#[trigger] tokf(b)),
        forall|b: bool| boolish(#[trigger] tokf(b)) == b,
    ensures
        load_lines_legacy(
            cur,
            full.skip(k).map_values(|t: TargetModel| entry_line_mt(t, tokf(t.enabled))),
        ) == (ConfigModel { targets: full, ..cur }),
    decreases full.len() - k,
{
    let lines = full.skip(k).map_values(|t: TargetModel| entry_line_mt(t, tokf(t.enabled)));
    if k == full.len() {
        assert(lines =~= Seq::<Seq<u8>>::empty());
        assert(load_lines_legacy(cur, lines) == cur);
        assert(cur.targets =~= full);
        assert(cur =~~= (ConfigModel { targets: full, ..cur }));
    } else {
        let t = full[k];
        let tok = tokf(t.enabled);
        assert(full.skip(k)[0] == t);
        assert(lines[0] == entry_line_mt(t, tok));
        let key = kw_mt_prefix() + dec_digits(t.key as nat);
        let value = tok + seq![124u8] + t.name + seq![124u8] + t.path;
        assert(lines[0] =~= key + seq![61u8] + value);
        lemma_key_facts();
        lemma_mt_key(t.key);
        assert(target_wf(t));
        assert(value[0] == tok[0]);
        if t.path.len() > 0 {
            assert(value[value.len() - 1] == t.path[t.path.len() - 1]);
        } else {
            assert(value[value.len() - 1] == 124);
        }
        lemma_line_kv_rendered(key, value);
        lemma_triple_rendered(t.key, t, tok);
        let tt = TargetModel { key: t.key, name: t.name, path: t.path, enabled: boolish(tok) };
        assert(tt =~~= t);
        // the key is new and above everything before it, so the entry appends
        let ts0 = full.take(k);
        assert forall|j: int| 0 <= j < ts0.len() implies ts0[j].key < t.key by {
            assert(ts0[j] == full[j]);
        }
        assert(!key_used(ts0, t.key));
        lemma_key_index(ts0, t.key);
        if key_index(ts0, t.key) >= 0 {
            assert(key_used(ts0, t.key));
        }
        assert(key_index(ts0, t.key) == -1);
        assert forall|j: int| 0 <= j < ts0.len() implies lower_bytes(ts0[j].path) != lower_bytes(
            t.path,
        ) by {
            assert(ts0[j] == full[j]);
        }
        assert(!path_present(ts0, t.path));
        assert(ts0.len() + 1 < u64::MAX);
        lemma_insert_sorted_append(ts0, t);
        assert(upsert_target(ts0, t) == ts0.push(t));
        let cur2 = apply_line_legacy(cur, lines[0]);
        assert(cur2 =~~= (ConfigModel { targets: ts0.push(t), ..cur }));
        assert(ts0.push(t) =~= full.take(k + 1));
        assert(lines.skip(1) =~= full.skip(k + 1).map_values(
            |t0: TargetModel| entry_line_mt(t0, tokf(t0.enabled)),
        ));
        lemma_load_mt_entries(cur2, full, k + 1, tokf);
        assert((ConfigModel { targets: full, ..cur2 }) =~~= (ConfigModel {
            targets: full,
            ..cur
        }));
    }
}

/// Targets re-numbered 1, 2, ... in list order, as the structured encoding
/// restores them.
pub open spec fn renumber(ts: Seq<TargetModel>) -> Seq<TargetModel> {
    Seq::new(
        ts.len(),
        |i: int|
            TargetModel {
                key: (i + 1) as u64,
                name: ts[i].name,
                path: ts[i].path,
                enabled: ts[i].enabled,
            },
    )
}

/// Reading the rendered structured entries rebuilds the remaining targets
/// under sequential keys.
proof fn lemma_load_structured_entries(cur: ConfigModel, full: Seq<TargetModel>, k: int)
    requires
        targets_wf(full),
        0 <= k <= full.len(),
        cur.targets == renumber(full).take(k),
    ensures
        load_lines_structured(
            cur,
            full.skip(k).map_values(|t: TargetModel| entry_line_structured(t)),
        ) == (ConfigModel { targets: renumber(full), ..cur }),
    decreases full.len() - k,
{
    let lines = full.skip(k).map_values(|t: TargetModel| entry_line_structured(t));
    if k == full.len() {
        assert(lines =~= Seq::<Seq<u8>>::empty());
        assert(load_lines_structured(cur, lines) == cur);
        assert(cur.targets =~= renumber(full));
        assert(cur =~~= (ConfigModel { targets: renumber(full), ..cur }));
    } else {
        let t = full[k];
        let tok = crate::codec::tok_structured(t.enabled);
        assert(full.skip(k)[0] == t);
        assert(lines[0] == entry_line_structured(t));
        let value = tok + seq![124u8] + t.name + seq![124u8] + t.path;
        assert(lines[0] =~= kw_instance() + seq![61u8] + value);
        lemma_key_facts();
        lemma_tok_facts();
        assert(target_wf(t));
        assert(value[0] == tok[0]);
        if t.path.len() > 0 {
            assert(value[value.len() - 1] == t.path[t.path.len() - 1]);
        } else {
            assert(value[value.len() - 1] == 124);
        }
        lemma_line_kv_rendered(kw_instance(), value);
        assert(cur.targets.len() == k);
        assert(k + 1 <= full.len() < u64::MAX);
        lemma_triple_rendered((k + 1) as u64, t, tok);
        let tt = TargetModel {
            key: (k + 1) as u64,
            name: t.name,
            path: t.path,
            enabled: boolish(tok),
        };
        assert(tt =~~= renumber(full)[k]);
        assert forall|j: int| 0 <= j < cur.targets.len() implies lower_bytes(cur.targets[j].path)
            != lower_bytes(t.path) by {
            assert(cur.targets[j] == renumber(full).take(k)[j]);
            assert(renumber(full)[j].path == full[j].path);
        }
        assert(!path_present(cur.targets, tt.path));
        let cur2 = apply_line_structured(cur, lines[0]);
        assert(cur2 =~~= (ConfigModel { targets: cur.targets.push(tt), ..cur }));
        assert(cur.targets.push(tt) =~= renumber(full).take(k + 1));
        assert(lines.skip(1) =~= full.skip(k + 1).map_values(
            |t0: TargetModel| entry_line_structured(t0),
        ));
        lemma_load_structured_entries(cur2, full, k + 1);
        assert((ConfigModel { targets: renumber(full), ..cur2 }) =~~= (ConfigModel {
            targets: renumber(full),
            ..cur
        }));
    }
}


// ---------- the three round-trip laws ----------

/// The lines of the flat rendering hold no line feed, and how each reads.
proof fn lemma_flat_lines_shape(m: ConfigModel)
    requires
        config_wf(m),
    ensures
        forall|i: int| 0 <= i < flat_lines(m).len() ==> no_byte(#[trigger] flat_lines(m)[i], 10),
{
    lemma_key_facts();
    lemma_tok_facts();
    lemma_dec_digits_val(m.poll_interval_seconds as nat);
    lemma_digits_clean(dec_digits(m.poll_interval_seconds as nat));
    let ls = flat_lines(m);
    assert forall|i: int| 0 <= i < ls.len() implies no_byte(#[trigger] ls[i], 10) by {
        if i >= 2 {
            let t = m.targets[i - 2];
            assert(ls[i] == entry_line_mt(t, crate::codec::tok_flat(t.enabled)));
            assert(target_wf(t));
            lemma_dec_digits_val(t.key as nat);
            lemma_digits_clean(dec_digits(t.key as nat));
        }
    }
}

/// Law: a well-formed configuration saved in the flat encoding is detected
/// as flat and loads back exactly, keys included.
pub proof fn lemma_round_trip_flat(m: ConfigModel)
    requires
        config_wf(m),
    ensures
        spec_load_legacy(spec_save_flat(m)) == m,
        spec_detect(spec_save_flat(m)) == Encoding::Flat,
{
    lemma_key_facts();
    lemma_tok_facts();
    lemma_dec_digits_val(m.poll_interval_seconds as nat);
    let d = dec_digits(m.poll_interval_seconds as nat);
    lemma_digits_clean(d);
    lemma_flat_lines_shape(m);
    let ls = flat_lines(m);
    lemma_split_join(ls);
    assert(split_lines(spec_save_flat(m)) == ls);

    // the two header lines
    let l1 = kw_check_interval() + seq![61u8] + d;
    let l2 = kw_auto_start() + seq![61u8] + crate::codec::tok_flat(m.auto_start_enabled);
    assert(ls[0] == l1);
    assert(ls[1] == l2);
    lemma_line_kv_rendered(kw_check_interval(), d);
    lemma_line_kv_rendered(kw_auto_start(), crate::codec::tok_flat(m.auto_start_enabled));
    lemma_mt_key(1);
    let m0 = default_model();
    let cur1 = apply_line_legacy(m0, l1);
    assert(crate::codec::interval_of(d) == m.poll_interval_seconds);
    assert(cur1 =~~= (ConfigModel { poll_interval_seconds: m.poll_interval_seconds, ..m0 }));
    let cur2 = apply_line_legacy(cur1, l2);
    assert(cur2 =~~= (ConfigModel {
        poll_interval_seconds: m.poll_interval_seconds,
        targets: Seq::empty(),
        auto_start_enabled: m.auto_start_enabled,
    }));
    // the entries
    let entries = m.targets.map_values(
        |t: TargetModel| entry_line_mt(t, crate::codec::tok_flat(t.enabled)),
    );
    let tokf = |b: bool| crate::codec::tok_flat(b);
    assert(cur2.targets =~= m.targets.take(0));
    assert(m.targets.skip(0) =~= m.targets);
    assert(entries =~= m.targets.skip(0).map_values(
        |t: TargetModel| entry_line_mt(t, tokf(t.enabled)),
    ));
    lemma_load_mt_entries(cur2, m.targets, 0, tokf);
    assert(ls.skip(1).skip(1) =~= entries);
    assert(ls.skip(1)[0] == l2);
    assert(load_lines_legacy(m0, ls) == load_lines_legacy(cur1, ls.skip(1)));
    assert(load_lines_legacy(cur1, ls.skip(1)) == load_lines_legacy(cur2, ls.skip(1).skip(1)));
    assert(load_lines_legacy(cur2, entries) =~~= m);

    // detection: no structured key and no marker occurs
    assert forall|i: int| 0 <= i < ls.len() implies !line_is_structured(#[trigger] ls[i]) by {
        if i == 0 {
        } else if i == 1 {
        } else {
            let t = m.targets[i - 2];
            lemma_entry_line_reads(m, i - 2, tokf);
        }
    }
    assert forall|i: int| 0 <= i < ls.len() implies !line_is_marker(#[trigger] ls[i]) by {
        if i >= 2 {
            let t = m.targets[i - 2];
            lemma_entry_line_reads(m, i - 2, tokf);
        }
    }
}

/// The entry line of target `k` splits as a key/value line under its
/// `MT_<n>` key, is no marker, and is no structured key either.
proof fn lemma_entry_line_reads(m: ConfigModel, k: int, tokf: spec_fn(bool) -> Seq<u8>)
    requires
        config_wf(m),
        0 <= k < m.targets.len(),
        forall|b: bool| tok_clean(#[trigger] tokf(b)),
    ensures
        !line_is_marker(entry_line_mt(m.targets[k], tokf(m.targets[k].enabled))),
        !line_is_structured(entry_line_mt(m.targets[k], tokf(m.targets[k].enabled))),
{
    lemma_key_facts();
    let t = m.targets[k];
    assert(target_wf(t));
    let tok = tokf(t.enabled);
    let key = kw_mt_prefix() + dec_digits(t.key as nat);
    let value = tok + seq![124u8] + t.name + seq![124u8] + t.path;
    lemma_mt_key(t.key);
    assert(value[0] == tok[0]);
    if t.path.len() > 0 {
        assert(value[value.len() - 1] == t.path[t.path.len() - 1]);
    } else {
        assert(value[value.len() - 1] == 124);
    }
    lemma_line_kv_rendered(key, value);
    assert(entry_line_mt(t, tok) =~= key + seq![61u8] + value);
    assert(key[0] == 77);
    assert(key != kw_interval_seconds() && key != kw_auto_enabled() && key != kw_instance());
}

/// Law: a well-formed configuration saved in the commented encoding is
/// detected as such and loads back exactly, keys included.
pub proof fn lemma_round_trip_ini(m: ConfigModel)
    requires
        config_wf(m),
    ensures
        spec_load_legacy(spec_save_ini(m)) == m,
        spec_detect(spec_save_ini(m)) == Encoding::Ini,
{
    lemma_key_facts();
    lemma_tok_facts();
    lemma_scaffold_facts();
    lemma_dec_digits_val(m.poll_interval_seconds as nat);
    let d = dec_digits(m.poll_interval_seconds as nat);
    lemma_digits_clean(d);
    let ls = ini_lines(m);
    let tokf = |b: bool| crate::codec::tok_ini(b);
    assert forall|i: int| 0 <= i < ls.len() implies no_byte(#[trigger] ls[i], 10) by {
        if i >= 8 {
            let t = m.targets[i - 8];
            assert(ls[i] == entry_line_mt(t, crate::codec::tok_ini(t.enabled)));
            assert(target_wf(t));
            lemma_dec_digits_val(t.key as nat);
            lemma_digits_clean(dec_digits(t.key as nat));
        }
    }
    lemma_split_join(ls);
    assert(split_lines(spec_save_ini(m)) == ls);

    let c1 = lit("; MetaGuard configuration");
    let s1 = lit("[Settings]");
    let c2 = lit("; seconds between watchdog ticks, 10 to 300");
    let l1 = kw_check_interval() + seq![61u8] + d;
    let c3 = lit("; start with Windows: ON or OFF");
    let l2 = kw_auto_start() + seq![61u8] + crate::codec::tok_ini(m.auto_start_enabled);
    let s2 = lit("[MT4_MT5]");
    let c4 = lit("; MT_<n>=ON|display name|full path of terminal.exe");
    lemma_marker_skipped(c1);
    lemma_marker_skipped(s1);
    lemma_marker_skipped(c2);
    lemma_marker_skipped(c3);
    lemma_marker_skipped(s2);
    lemma_marker_skipped(c4);
    lemma_line_kv_rendered(kw_check_interval(), d);
    lemma_line_kv_rendered(kw_auto_start(), crate::codec::tok_ini(m.auto_start_enabled));
    let m0 = default_model();
    assert(apply_line_legacy(m0, c1) == m0);
    assert(apply_line_legacy(m0, s1) == m0);
    assert(apply_line_legacy(m0, c2) == m0);
    assert(crate::codec::interval_of(d) == m.poll_interval_seconds);
    let cur1 = apply_line_legacy(m0, l1);
    assert(cur1 =~~= (ConfigModel { poll_interval_seconds: m.poll_interval_seconds, ..m0 }));
    assert(apply_line_legacy(cur1, c3) == cur1);
    let cur2 = apply_line_legacy(cur1, l2);
    assert(cur2 =~~= (ConfigModel {
        poll_interval_seconds: m.poll_interval_seconds,
        targets: Seq::empty(),
        auto_start_enabled: m.auto_start_enabled,
    }));
    assert(apply_line_legacy(cur2, s2) == cur2);
    assert(apply_line_legacy(cur2, c4) == cur2);

    let entries = m.targets.map_values(
        |t: TargetModel| entry_line_mt(t, crate::codec::tok_ini(t.enabled)),
    );
    assert(cur2.targets =~= m.targets.take(0));
    assert(entries =~= m.targets.skip(0).map_values(
        |t: TargetModel| entry_line_mt(t, tokf(t.enabled)),
    ));
    lemma_load_mt_entries(cur2, m.targets, 0, tokf);

    // walk the eight header lines
    assert(ls[0] == c1 && ls[1] == s1 && ls[2] == c2 && ls[3] == l1 && ls[4] == c3 && ls[5] == l2
        && ls[6] == s2 && ls[7] == c4);
    let r1 = ls.skip(1);
    let r2 = r1.skip(1);
    let r3 = r2.skip(1);
    let r4 = r3.skip(1);
    let r5 = r4.skip(1);
    let r6 = r5.skip(1);
    let r7 = r6.skip(1);
    let r8 = r7.skip(1);
    assert(r1[0] == s1 && r2[0] == c2 && r3[0] == l1 && r4[0] == c3 && r5[0] == l2 && r6[0] == s2
        && r7[0] == c4);
    assert(r8 =~= entries);
    assert(load_lines_legacy(m0, ls) == load_lines_legacy(m0, r1));
    assert(load_lines_legacy(m0, r1) == load_lines_legacy(m0, r2));
    assert(load_lines_legacy(m0, r2) == load_lines_legacy(m0, r3));
    assert(load_lines_legacy(m0, r3) == load_lines_legacy(cur1, r4));
    assert(load_lines_legacy(cur1, r4) == load_lines_legacy(cur1, r5));
    assert(load_lines_legacy(cur1, r5) == load_lines_legacy(cur2, r6));
    assert(load_lines_legacy(cur2, r6) == load_lines_legacy(cur2, r7));
    assert(load_lines_legacy(cur2, r7) == load_lines_legacy(cur2, r8));
    assert(load_lines_legacy(cur2, entries) =~~= m);

    // detection: a comment line opens the file, and nothing is structured
    assert(line_is_marker(ls[0]));
    assert forall|i: int| 0 <= i < ls.len() implies !line_is_structured(#[trigger] ls[i]) by {
        if i == 3 || i == 5 {
        } else if i >= 8 {
            lemma_entry_line_reads(m, i - 8, tokf);
        }
    }
}

/// Law: a well-formed configuration saved in the structured encoding is
/// detected as such and loads back with the targets re-numbered 1, 2, ...
/// in order; a configuration whose keys already run 1, 2, ... loads back
/// exactly.
pub proof fn lemma_round_trip_structured(m: ConfigModel)
    requires
        config_wf(m),
    ensures
        spec_load_structured(spec_save_structured(m)) == (ConfigModel {
            targets: renumber(m.targets),
            ..m
        }),
        spec_detect(spec_save_structured(m)) == Encoding::Structured,
        crate::codec::keys_sequential(m.targets) ==> spec_load_structured(
            spec_save_structured(m),
        ) == m,
{
    lemma_key_facts();
    lemma_tok_facts();
    lemma_dec_digits_val(m.poll_interval_seconds as nat);
    let d = dec_digits(m.poll_interval_seconds as nat);
    lemma_digits_clean(d);
    let ls = structured_lines(m);
    assert forall|i: int| 0 <= i < ls.len() implies no_byte(#[trigger] ls[i], 10) by {
        if i >= 2 {
            let t = m.targets[i - 2];
            assert(ls[i] == entry_line_structured(t));
            assert(target_wf(t));
        }
    }
    lemma_split_join(ls);
    assert(split_lines(spec_save_structured(m)) == ls);

    let l1 = kw_interval_seconds() + seq![61u8] + d;
    let l2 = kw_auto_enabled() + seq![61u8] + crate::codec::tok_structured(m.auto_start_enabled);
    assert(ls[0] == l1);
    assert(ls[1] == l2);
    lemma_line_kv_rendered(kw_interval_seconds(), d);
    lemma_line_kv_rendered(
        kw_auto_enabled(),
        crate::codec::tok_structured(m.auto_start_enabled),
    );
    let m0 = default_model();
    assert(crate::codec::interval_of(d) == m.poll_interval_seconds);
    let cur1 = apply_line_structured(m0, l1);
    assert(cur1 =~~= (ConfigModel { poll_interval_seconds: m.poll_interval_seconds, ..m0 }));
    let cur2 = apply_line_structured(cur1, l2);
    assert(cur2 =~~= (ConfigModel {
        poll_interval_seconds: m.poll_interval_seconds,
        targets: Seq::empty(),
        auto_start_enabled: m.auto_start_enabled,
    }));
    let entries = m.targets.map_values(|t: TargetModel| entry_line_structured(t));
    assert(cur2.targets =~= renumber(m.targets).take(0));
    assert(entries =~= m.targets.skip(0).map_values(
        |t0: TargetModel| entry_line_structured(t0),
    ));
    lemma_load_structured_entries(cur2, m.targets, 0);
    assert(ls.skip(1).skip(1) =~= entries);
    assert(ls.skip(1)[0] == l2);
    assert(load_lines_structured(m0, ls) == load_lines_structured(cur1, ls.skip(1)));
    assert(load_lines_structured(cur1, ls.skip(1)) == load_lines_structured(
        cur2,
        ls.skip(1).skip(1),
    ));
    assert(load_lines_structured(cur2, entries) =~~= (ConfigModel {
        targets: renumber(m.targets),
        ..m
    }));

    // detection: the first line names a structured key
    assert(line_is_structured(ls[0]));

    // sequential keys mean renumbering is the identity
    if crate::codec::keys_sequential(m.targets) {
        assert(renumber(m.targets) =~~= m.targets);
        assert((ConfigModel { targets: renumber(m.targets), ..m }) =~~= m);
    }
}

/// Law: saving under any encoding and auto-loading restores the
/// configuration (re-numbering keys in the structured case) and the
/// detected encoding is the one written.
pub proof fn lemma_save_load_auto(m: ConfigModel, e: Encoding)
    requires
        config_wf(m),
    ensures
        spec_detect(spec_save(m, e)) == e,
        e != Encoding::Structured ==> spec_load(spec_save(m, e), e) == m,
        e == Encoding::Structured ==> spec_load(spec_save(m, e), e) == (ConfigModel {
            targets: renumber(m.targets),
            ..m
        }),
{
    match e {
        Encoding::Structured => lemma_round_trip_structured(m),
        Encoding::Flat => lemma_round_trip_flat(m),
        Encoding::Ini => lemma_round_trip_ini(m),
    }
}


/// Law: loading is stable under re-serialization. Whatever bytes a file
/// held, saving what was loaded and loading again changes nothing — in
/// particular the structured encoding's re-numbered keys are already
/// sequential, so they survive as they are.
pub proof fn lemma_reserialize_stable(bytes: Seq<u8>, e: Encoding)
    ensures
        spec_load(spec_save(spec_load(bytes, e), e), e) == spec_load(bytes, e),
{
    match e {
        Encoding::Structured => {
            let m = spec_load_structured(bytes);
            crate::codec::lemma_load_lines_structured_wf(default_model(), split_lines(bytes));
            lemma_round_trip_structured(m);
        },
        Encoding::Flat => {
            let m = spec_load_legacy(bytes);
            crate::codec::lemma_load_lines_legacy_wf(default_model(), split_lines(bytes));
            lemma_round_trip_flat(m);
        },
        Encoding::Ini => {
            let m = spec_load_legacy(bytes);
            crate::codec::lemma_load_lines_legacy_wf(default_model(), split_lines(bytes));
            lemma_round_trip_ini(m);
        },
    }
}

} // verus!

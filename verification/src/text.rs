//! Byte-level text utilities shared by the configuration codecs: whitespace
//! trimming, byte searching, line splitting, decimal rendering/parsing and
//! the boolean token forms accepted in configuration files.
use vstd::prelude::*;

verus! {

// ---------- byte classes and constants ----------

/// Whitespace as the trimming rules treat it: space, tab, and the other
/// ASCII control whitespace (LF, VT, FF, CR).
pub open spec fn is_ws(b: u8) -> bool {
    b == 32 || (9 <= b && b <= 13)
}

pub open spec fn is_digit(b: u8) -> bool {
    48 <= b && b <= 57
}

/// ASCII lower-casing of one byte.
pub open spec fn lower_byte(b: u8) -> u8 {
    if 65 <= b && b <= 90 {
        (b + 32) as u8
    } else {
        b
    }
}

/// ASCII lower-casing of a byte string; paths are compared under this map.
pub open spec fn lower_bytes(s: Seq<u8>) -> Seq<u8> {
    s.map_values(|b: u8| lower_byte(b))
}

/// The bytes of an ASCII string literal; lets byte constants be written readably.
pub open spec fn lit(s: &str) -> Seq<u8> {
    Seq::new(s@.len(), |i: int| s@[i] as u8)
}

/// True when byte `b` does not occur in `s`.
pub open spec fn no_byte(s: Seq<u8>, b: u8) -> bool {
    forall|i: int| 0 <= i < s.len() ==> s[i] != b
}

/// Converts an ASCII string literal to its bytes.
pub fn lit_bytes(s: &str) -> (v: Vec<u8>)
    requires
        vstd::string::is_ascii(s),
    ensures
        v@ == lit(s),
{
    proof {
        vstd::string::is_ascii_spec_bytes(s);
    }
    let v = vstd::slice::slice_to_vec(s.as_bytes());
    proof {
        assert(v@ =~= lit(s));
    }
    v
}

/// Appends all of `src` to `dst`.
pub fn push_bytes(dst: &mut Vec<u8>, src: &[u8])
    ensures
        final(dst)@ == old(dst)@ + src@,
{
    let n = src.len();
    let mut i: usize = 0;
    while i < n
        invariant
            n == src@.len(),
            i <= n,
            dst@ == old(dst)@ + src@.take(i as int),
        decreases n - i,
    {
        dst.push(src[i]);
        proof {
            assert(old(dst)@ + src@.take(i as int + 1) =~= (old(dst)@ + src@.take(i as int)).push(
                src@[i as int],
            ));
        }
        i = i + 1;
    }
    proof {
        assert(src@.take(n as int) =~= src@);
    }
}

/// Byte-string equality.
pub fn bytes_eq(a: &[u8], b: &[u8]) -> (r: bool)
    ensures
        r <==> a@ == b@,
{
    if a.len() != b.len() {
        return false;
    }
    let n = a.len();
    let mut i: usize = 0;
    while i < n
        invariant
            n == a@.len(),
            n == b@.len(),
            i <= n,
            forall|m: int| 0 <= m < i ==> a@[m] == b@[m],
        decreases n - i,
    {
        if a[i] != b[i] {
            return false;
        }
        i = i + 1;
    }
    proof {
        assert(a@ =~= b@);
    }
    true
}

/// Copies `s[a..b]` into a fresh vector.
pub fn sub_bytes(s: &[u8], a: usize, b: usize) -> (v: Vec<u8>)
    requires
        a <= b <= s@.len(),
    ensures
        v@ == s@.subrange(a as int, b as int),
{
    let mut v: Vec<u8> = Vec::new();
    let mut i: usize = a;
    while i < b
        invariant
            a <= i <= b <= s@.len(),
            v@ == s@.subrange(a as int, i as int),
        decreases b - i,
    {
        v.push(s[i]);
        proof {
            assert(s@.subrange(a as int, i as int + 1) =~= s@.subrange(a as int, i as int).push(
                s@[i as int],
            ));
        }
        i = i + 1;
    }
    v
}

/// ASCII lower-casing, byte for byte.
pub fn lower_vec(s: &[u8]) -> (v: Vec<u8>)
    ensures
        v@ == lower_bytes(s@),
{
    let n = s.len();
    let mut v: Vec<u8> = Vec::new();
    let mut i: usize = 0;
    while i < n
        invariant
            n == s@.len(),
            i <= n,
            v@ == lower_bytes(s@.take(i as int)),
        decreases n - i,
    {
        let b = s[i];
        if 65 <= b && b <= 90 {
            v.push(b + 32);
        } else {
            v.push(b);
        }
        proof {
            assert(lower_bytes(s@.take(i as int + 1)) =~= lower_bytes(s@.take(i as int)).push(
                lower_byte(s@[i as int]),
            ));
        }
        i = i + 1;
    }
    proof {
        assert(s@.take(n as int) =~= s@);
    }
    v
}

// ---------- searching ----------

/// Index of the first occurrence of `b` in `s`, or -1 when absent.
pub open spec fn find_byte(s: Seq<u8>, b: u8) -> int
    decreases s.len(),
{
    if s.len() == 0 {
        -1
    } else if s[0] == b {
        0
    } else {
        let r = find_byte(s.skip(1), b);
        if r < 0 {
            -1
        } else {
            1 + r
        }
    }
}

/// `find_byte` finds `b` exactly at `k` when `k` holds the first occurrence.
pub proof fn lemma_find_byte_at(s: Seq<u8>, b: u8, k: int)
    requires
        0 <= k < s.len(),
        s[k] == b,
        forall|m: int| 0 <= m < k ==> s[m] != b,
    ensures
        find_byte(s, b) == k,
    decreases k,
{
    if k == 0 {
    } else {
        assert forall|m: int| 0 <= m < k - 1 implies s.skip(1)[m] != b by {
            assert(s.skip(1)[m] == s[m + 1]);
        }
        assert(s.skip(1)[k - 1] == s[k]);
        lemma_find_byte_at(s.skip(1), b, k - 1);
    }
}

/// With no occurrence of `b`, `find_byte` reports -1.
pub proof fn lemma_find_byte_none(s: Seq<u8>, b: u8)
    requires
        no_byte(s, b),
    ensures
        find_byte(s, b) == -1,
    decreases s.len(),
{
    if s.len() > 0 {
        assert forall|m: int| 0 <= m < s.skip(1).len() implies s.skip(1)[m] != b by {
            assert(s.skip(1)[m] == s[m + 1]);
        }
        lemma_find_byte_none(s.skip(1), b);
    }
}

/// Finds the first occurrence of `b` in `s`, if any.
pub fn find_byte_vec(s: &[u8], b: u8) -> (r: Option<usize>)
    ensures
        match r {
            Some(i) => i == find_byte(s@, b) && i < s@.len(),
            None => find_byte(s@, b) == -1,
        },
{
    let n = s.len();
    let mut i: usize = 0;
    while i < n
        invariant
            n == s@.len(),
            i <= n,
            forall|m: int| 0 <= m < i ==> s@[m] != b,
        decreases n - i,
    {
        if s[i] == b {
            proof {
                lemma_find_byte_at(s@, b, i as int);
            }
            return Some(i);
        }
        i = i + 1;
    }
    proof {
        lemma_find_byte_none(s@, b);
    }
    None
}

// ---------- trimming ----------

pub open spec fn trim_front(s: Seq<u8>) -> Seq<u8>
    decreases s.len(),
{
    if s.len() > 0 && is_ws(s[0]) {
        trim_front(s.skip(1))
    } else {
        s
    }
}

pub open spec fn trim_back(s: Seq<u8>) -> Seq<u8>
    decreases s.len(),
{
    if s.len() > 0 && is_ws(s[s.len() - 1]) {
        trim_back(s.take(s.len() - 1))
    } else {
        s
    }
}

/// Both ends trimmed of ASCII whitespace.
pub open spec fn trim(s: Seq<u8>) -> Seq<u8> {
    trim_back(trim_front(s))
}

pub proof fn lemma_trim_front_exact(s: Seq<u8>, lo: int)
    requires
        0 <= lo <= s.len(),
        forall|m: int| 0 <= m < lo ==> is_ws(s[m]),
        lo < s.len() ==> !is_ws(s[lo]),
    ensures
        trim_front(s) == s.skip(lo),
    decreases lo,
{
    if lo == 0 {
        assert(s.skip(0) =~= s);
    } else {
        assert forall|m: int| 0 <= m < lo - 1 implies is_ws(s.skip(1)[m]) by {
            assert(s.skip(1)[m] == s[m + 1]);
        }
        if lo - 1 < s.skip(1).len() {
            assert(s.skip(1)[lo - 1] == s[lo]);
        }
        lemma_trim_front_exact(s.skip(1), lo - 1);
        assert(s.skip(1).skip(lo - 1) =~= s.skip(lo));
    }
}

pub proof fn lemma_trim_back_exact(s: Seq<u8>, hi: int)
    requires
        0 <= hi <= s.len(),
        forall|m: int| hi <= m < s.len() ==> is_ws(s[m]),
        hi > 0 ==> !is_ws(s[hi - 1]),
    ensures
        trim_back(s) == s.take(hi),
    decreases s.len() - hi,
{
    if hi == s.len() {
        if s.len() > 0 && is_ws(s[s.len() - 1]) {
            assert(false);
        }
        assert(s.take(hi) =~= s);
    } else {
        assert(is_ws(s[s.len() - 1]));
        let t = s.take(s.len() - 1);
        assert forall|m: int| hi <= m < t.len() implies is_ws(t[m]) by {
            assert(t[m] == s[m]);
        }
        lemma_trim_back_exact(t, hi);
        assert(t.take(hi) =~= s.take(hi));
    }
}

/// A string with non-whitespace ends trims to itself.
pub proof fn lemma_trim_stable(s: Seq<u8>)
    requires
        s.len() > 0 ==> !is_ws(s[0]) && !is_ws(s[s.len() - 1]),
    ensures
        trim(s) == s,
{
    lemma_trim_front_exact(s, 0);
    assert(s.skip(0) =~= s);
    lemma_trim_back_exact(s, s.len() as int);
    assert(s.take(s.len() as int) =~= s);
}

/// Trims ASCII whitespace from both ends.
pub fn trim_vec(s: &[u8]) -> (v: Vec<u8>)
    ensures
        v@ == trim(s@),
{
    let n = s.len();
    let mut lo: usize = 0;
    while lo < n && (s[lo] == 32 || (9 <= s[lo] && s[lo] <= 13))
        invariant
            n == s@.len(),
            lo <= n,
            forall|m: int| 0 <= m < lo ==> is_ws(s@[m]),
        decreases n - lo,
    {
        lo = lo + 1;
    }
    proof {
        lemma_trim_front_exact(s@, lo as int);
    }
    // within s[lo..], scan back over trailing whitespace
    let mut hi: usize = n;
    while hi > lo && (s[hi - 1] == 32 || (9 <= s[hi - 1] && s[hi - 1] <= 13))
        invariant
            lo <= hi <= n,
            n == s@.len(),
            forall|m: int| hi <= m < n ==> is_ws(s@[m]),
        decreases hi,
    {
        hi = hi - 1;
    }
    let v = sub_bytes(s, lo, hi);
    proof {
        let t = s@.skip(lo as int);
        assert forall|m: int| hi - lo <= m < t.len() implies is_ws(t[m]) by {
            assert(t[m] == s@[m + lo]);
        }
        if hi > lo {
            assert(t[hi - lo - 1] == s@[hi - 1]);
        }
        lemma_trim_back_exact(t, hi - lo);
        assert(t.take(hi - lo) =~= s@.subrange(lo as int, hi as int));
    }
    v
}

// ---------- line splitting ----------

/// The lines of `s`, split on LF; a trailing LF yields no empty final line.
pub open spec fn split_lines(s: Seq<u8>) -> Seq<Seq<u8>>
    decreases s.len(),
{
    if s.len() == 0 {
        Seq::empty()
    } else {
        let i = find_byte(s, 10);
        if 0 <= i < s.len() {
            seq![s.take(i)] + split_lines(s.skip(i + 1))
        } else {
            seq![s]
        }
    }
}

/// Splitting after one complete line steps over it.
pub proof fn lemma_split_lines_step(line: Seq<u8>, rest: Seq<u8>)
    requires
        no_byte(line, 10),
    ensures
        split_lines(line + seq![10u8] + rest) == seq![line] + split_lines(rest),
{
    let s = line + seq![10u8] + rest;
    assert(s[line.len() as int] == 10);
    assert forall|m: int| 0 <= m < line.len() implies s[m] != 10 by {
        assert(s[m] == line[m]);
    }
    lemma_find_byte_at(s, 10, line.len() as int);
    assert(s.take(line.len() as int) =~= line);
    assert(s.skip(line.len() as int + 1) =~= rest);
}

/// Splits `s` into its lines.
pub fn split_lines_vec(s: &[u8]) -> (lines: Vec<Vec<u8>>)
    ensures
        lines.deep_view() == split_lines(s@),
{
    let n = s.len();
    let mut lines: Vec<Vec<u8>> = Vec::new();
    let mut start: usize = 0;
    proof {
        assert(lines.deep_view() + split_lines(s@) =~= split_lines(s@));
        assert(s@.skip(0) =~= s@);
    }
    while start < n
        invariant
            n == s@.len(),
            start <= n,
            split_lines(s@) == lines.deep_view() + split_lines(s@.skip(start as int)),
        decreases n - start,
    {
        let ghost prev = lines.deep_view();
        let ghost tail = s@.skip(start as int);
        // find the next newline at or after start
        let mut j: usize = start;
        while j < n && s[j] != 10
            invariant
                start <= j <= n,
                n == s@.len(),
                forall|m: int| start <= m < j ==> s@[m] != 10,
            decreases n - j,
        {
            j = j + 1;
        }
        let line = sub_bytes(s, start, j);
        proof {
            assert forall|m: int| 0 <= m < j - start implies tail[m] != 10 by {
                assert(tail[m] == s@[m + start]);
            }
            assert(line@ =~= tail.take(j - start));
        }
        proof {
            assert(line.deep_view() =~= line@);
        }
        lines.push(line);
        proof {
            assert(lines.deep_view() =~= prev.push(tail.take(j - start)));
        }
        if j < n {
            proof {
                assert(tail[j - start] == s@[j as int]);
                lemma_find_byte_at(tail, 10, j - start);
                assert(tail.skip(j - start + 1) =~= s@.skip(j as int + 1));
                assert(prev.push(tail.take(j - start)) =~= prev + seq![tail.take(j - start)]);
            }
            start = j + 1;
        } else {
            proof {
                lemma_find_byte_none(tail, 10);
                assert(tail.take(j - start) =~= tail);
                assert(prev.push(tail) =~= prev + seq![tail]);
                assert(s@.skip(n as int) =~= Seq::<u8>::empty());
            }
            start = n;
        }
    }
    proof {
        assert(s@.skip(start as int) =~= Seq::<u8>::empty());
        assert(lines.deep_view() + Seq::<Seq<u8>>::empty() =~= lines.deep_view());
    }
    lines
}

// ---------- decimal numbers ----------

/// The decimal digit string of `n`, most significant digit first.
pub open spec fn dec_digits(n: nat) -> Seq<u8>
    decreases n,
{
    if n < 10 {
        seq![(48 + n) as u8]
    } else {
        dec_digits(n / 10).push((48 + n % 10) as u8)
    }
}

/// The numeric value of a digit string (0 for the empty string).
pub open spec fn dec_val(s: Seq<u8>) -> nat
    decreases s.len(),
{
    if s.len() == 0 {
        0
    } else {
        dec_val(s.drop_last()) * 10 + (if is_digit(s.last()) {
            (s.last() - 48) as nat
        } else {
            0
        })
    }
}

pub open spec fn all_digits(s: Seq<u8>) -> bool {
    forall|i: int| 0 <= i < s.len() ==> is_digit(s[i])
}

/// What parsing an unsigned decimal yields: defined only for non-empty
/// all-digit strings whose value fits in a `u64`.
pub open spec fn parse_u64(s: Seq<u8>) -> Option<u64> {
    if s.len() > 0 && all_digits(s) && dec_val(s) <= u64::MAX {
        Some(dec_val(s) as u64)
    } else {
        None
    }
}

/// Rendering a number yields digits, and parsing them restores the number.
pub proof fn lemma_dec_digits_val(n: nat)
    ensures
        dec_digits(n).len() >= 1,
        all_digits(dec_digits(n)),
        dec_val(dec_digits(n)) == n,
    decreases n,
{
    if n < 10 {
        let s = dec_digits(n);
        assert(s =~= seq![(48 + n) as u8]);
        assert(s.drop_last() =~= Seq::<u8>::empty());
        assert(dec_val(s.drop_last()) == 0);
        assert(is_digit(s.last()));
        assert(dec_val(s) == n);
        assert(all_digits(s));
    } else {
        lemma_dec_digits_val(n / 10);
        let p = dec_digits(n / 10);
        let s = p.push((48 + n % 10) as u8);
        assert(s.drop_last() =~= p);
        assert forall|i: int| 0 <= i < s.len() implies is_digit(s[i]) by {
            if i < p.len() {
                assert(s[i] == p[i]);
            }
        }
        assert(dec_val(s) == (n / 10) * 10 + n % 10);
        vstd::arithmetic::div_mod::lemma_fundamental_div_mod(n as int, 10);
    }
}

/// The value of a digit string grows (weakly) with each appended digit.
pub proof fn lemma_dec_val_mono(s: Seq<u8>, i: int, j: int)
    requires
        0 <= i <= j <= s.len(),
    ensures
        dec_val(s.take(i)) <= dec_val(s.take(j)),
    decreases j - i,
{
    if i < j {
        lemma_dec_val_mono(s, i, j - 1);
        let t = s.take(j);
        assert(t.drop_last() =~= s.take(j - 1));
        assert(dec_val(s.take(j - 1)) * 10 >= dec_val(s.take(j - 1))) by (nonlinear_arith)
            requires
                dec_val(s.take(j - 1)) >= 0,
        ;
    }
}

/// Parses a non-empty all-digit byte string as a `u64`.
pub fn parse_u64_vec(s: &[u8]) -> (r: Option<u64>)
    ensures
        r == parse_u64(s@),
{
    let n = s.len();
    if n == 0 {
        return None;
    }
    let mut acc: u64 = 0;
    let mut i: usize = 0;
    while i < n
        invariant
            n == s@.len(),
            i <= n,
            all_digits(s@.take(i as int)),
            acc == dec_val(s@.take(i as int)),
        decreases n - i,
    {
        let b = s[i];
        if !(48 <= b && b <= 57) {
            return None;
        }
        let d = (b - 48) as u64;
        proof {
            assert(s@.take(i as int + 1).drop_last() =~= s@.take(i as int));
        }
        if acc > (u64::MAX - d) / 10 {
            proof {
                assert(dec_val(s@.take(i as int + 1)) > u64::MAX) by (nonlinear_arith)
                    requires
                        dec_val(s@.take(i as int + 1)) == dec_val(s@.take(i as int)) * 10 + d,
                        dec_val(s@.take(i as int)) == acc,
                        acc > (u64::MAX - d) / 10,
                        d <= 9,
                ;
                lemma_dec_val_mono(s@, i + 1, n as int);
                assert(s@.take(n as int) =~= s@);
            }
            return None;
        }
        proof {
            assert(acc * 10 + d <= u64::MAX) by (nonlinear_arith)
                requires
                    acc <= (u64::MAX - d) / 10,
                    d <= 9,
            ;
        }
        acc = acc * 10 + d;
        i = i + 1;
    }
    proof {
        assert(s@.take(n as int) =~= s@);
    }
    Some(acc)
}

/// Renders `n` in decimal.
pub fn u64_to_dec(n: u64) -> (v: Vec<u8>)
    ensures
        v@ == dec_digits(n as nat),
{
    let mut v: Vec<u8> = Vec::new();
    let mut m: u64 = n;
    proof {
        assert(dec_digits(n as nat) + Seq::<u8>::empty() =~= dec_digits(n as nat));
    }
    while m >= 10
        invariant
            dec_digits(n as nat) == dec_digits(m as nat) + v@,
        decreases m,
    {
        let d = (m % 10) as u8;
        let ghost vprev = v@;
        v.insert(0, 48 + d);
        proof {
            assert(v@ =~= seq![(48 + m % 10) as u8] + vprev);
            assert(dec_digits((m / 10) as nat).push((48 + m % 10) as u8) + vprev =~= dec_digits(
                (m / 10) as nat,
            ) + v@);
        }
        m = m / 10;
    }
    let ghost vprev = v@;
    v.insert(0, 48 + (m as u8));
    proof {
        assert(v@ =~= seq![(48 + m as nat) as u8] + vprev);
        assert(dec_digits(m as nat) + vprev =~= v@);
    }
    v
}

// ---------- boolean tokens ----------

/// The boolean value of a token: ON/TRUE/1 and OFF/FALSE/0, case-insensitively.
pub open spec fn bool_token(tok: Seq<u8>) -> Option<bool> {
    let l = lower_bytes(tok);
    if l == lit("on") || l == lit("true") || l == lit("1") {
        Some(true)
    } else if l == lit("off") || l == lit("false") || l == lit("0") {
        Some(false)
    } else {
        None
    }
}

/// A lenient boolean read: anything but an explicit OFF/FALSE/0 counts as true.
pub open spec fn boolish(tok: Seq<u8>) -> bool {
    bool_token(tok) != Some(false)
}

/// Parses a boolean token.
pub fn parse_bool_token(tok: &[u8]) -> (r: Option<bool>)
    ensures
        r == bool_token(tok@),
{
    let l = lower_vec(tok);
    proof {
        reveal_strlit("on");
        reveal_strlit("true");
        reveal_strlit("1");
        reveal_strlit("off");
        reveal_strlit("false");
        reveal_strlit("0");
    }
    let t_on = lit_bytes("on");
    let t_true = lit_bytes("true");
    let t_one = lit_bytes("1");
    let t_off = lit_bytes("off");
    let t_false = lit_bytes("false");
    let t_zero = lit_bytes("0");
    if bytes_eq(l.as_slice(), t_on.as_slice()) || bytes_eq(l.as_slice(), t_true.as_slice())
        || bytes_eq(l.as_slice(), t_one.as_slice()) {
        Some(true)
    } else if bytes_eq(l.as_slice(), t_off.as_slice()) || bytes_eq(l.as_slice(), t_false.as_slice())
        || bytes_eq(l.as_slice(), t_zero.as_slice()) {
        Some(false)
    } else {
        None
    }
}

/// The boolean tokens accepted in configuration files: every case mix of
/// ON/TRUE/1 reads as true, every case mix of OFF/FALSE/0 as false.
pub proof fn lemma_bool_tokens()
    ensures
        bool_token(lit("ON")) == Some(true),
        bool_token(lit("On")) == Some(true),
        bool_token(lit("on")) == Some(true),
        bool_token(lit("TRUE")) == Some(true),
        bool_token(lit("True")) == Some(true),
        bool_token(lit("true")) == Some(true),
        bool_token(lit("1")) == Some(true),
        bool_token(lit("OFF")) == Some(false),
        bool_token(lit("Off")) == Some(false),
        bool_token(lit("off")) == Some(false),
        bool_token(lit("FALSE")) == Some(false),
        bool_token(lit("False")) == Some(false),
        bool_token(lit("false")) == Some(false),
        bool_token(lit("0")) == Some(false),
{
    reveal_strlit("ON");
    reveal_strlit("On");
    reveal_strlit("on");
    reveal_strlit("TRUE");
    reveal_strlit("True");
    reveal_strlit("true");
    reveal_strlit("1");
    reveal_strlit("OFF");
    reveal_strlit("Off");
    reveal_strlit("off");
    reveal_strlit("FALSE");
    reveal_strlit("False");
    reveal_strlit("false");
    reveal_strlit("0");
    assert(lower_bytes(lit("ON")) =~= lit("on"));
    assert(lower_bytes(lit("On")) =~= lit("on"));
    assert(lower_bytes(lit("on")) =~= lit("on"));
    assert(lower_bytes(lit("TRUE")) =~= lit("true"));
    assert(lower_bytes(lit("True")) =~= lit("true"));
    assert(lower_bytes(lit("true")) =~= lit("true"));
    assert(lower_bytes(lit("1")) =~= lit("1"));
    assert(lower_bytes(lit("OFF")) =~= lit("off"));
    assert(lower_bytes(lit("Off")) =~= lit("off"));
    assert(lower_bytes(lit("off")) =~= lit("off"));
    assert(lower_bytes(lit("FALSE")) =~= lit("false"));
    assert(lower_bytes(lit("False")) =~= lit("false"));
    assert(lower_bytes(lit("false")) =~= lit("false"));
    assert(lower_bytes(lit("0")) =~= lit("0"));
    assert(lit("off") != lit("on") && lit("off") != lit("true") && lit("off") != lit("1"));
    assert(lit("false") != lit("on") && lit("false") != lit("true") && lit("false") != lit("1"));
    assert(lit("0") != lit("on") && lit("0") != lit("true") && lit("0")[0] != lit("1")[0]);
}

/// Reads a token leniently, as configuration loading does.
pub fn parse_boolish(tok: &[u8]) -> (r: bool)
    ensures
        r == boolish(tok@),
{
    match parse_bool_token(tok) {
        Some(b) => b,
        None => true,
    }
}

} // verus!

//! Canonical decimal notation for small numbers, as it appears in the
//! `IP:PORT` wire payloads: ASCII digits, no leading zero (except `"0"`
//! itself). `dec_digits` is the canonical rendering of a value, `seq_val`
//! the value of a digit string, and the lemmas here show the two are
//! inverse to each other, which is what the endpoint codec builds on.

use vstd::prelude::*;

verus! {

pub open spec fn is_digit(c: u8) -> bool {
    48 <= c && c <= 57
}

pub open spec fn all_digits(s: Seq<u8>) -> bool {
    forall|i: int| 0 <= i < s.len() ==> is_digit(#[trigger] s[i])
}

/// Numeric value of a digit string, most significant digit first.
pub open spec fn seq_val(s: Seq<u8>) -> int
    decreases s.len(),
{
    if s.len() == 0 {
        0
    } else {
        seq_val(s.drop_last()) * 10 + (s.last() - 48)
    }
}

/// The canonical decimal rendering of `n`: nonempty, all digits, and no
/// leading zero unless `n` itself is zero.
pub open spec fn dec_digits(n: nat) -> Seq<u8>
    decreases n,
{
    if n < 10 {
        seq![(48 + n) as u8]
    } else {
        dec_digits(n / 10).push((48 + n % 10) as u8)
    }
}

/// First position at or after `i` that does not hold a digit (or the end
/// of the sequence): the right boundary of the digit run starting at `i`.
pub open spec fn digit_run_end(s: Seq<u8>, i: int) -> int
    decreases s.len() - i,
{
    if i < 0 || i >= s.len() {
        i
    } else if is_digit(s[i]) {
        digit_run_end(s, i + 1)
    } else {
        i
    }
}

pub proof fn lemma_dec_digits_wf(n: nat)
    ensures
        dec_digits(n).len() >= 1,
        all_digits(dec_digits(n)),
        dec_digits(n).len() > 1 ==> dec_digits(n)[0] != 48,
        n < 10 ==> dec_digits(n).len() == 1,
    decreases n,
{
    if n < 10 {
    } else {
        lemma_dec_digits_wf(n / 10);
        assert(n / 10 >= 1) by (nonlinear_arith)
            requires n >= 10;
        let prev = dec_digits(n / 10);
        let s = dec_digits(n);
        assert(s == prev.push((48 + n % 10) as u8));
        assert(n % 10 < 10);
        assert forall|i: int| 0 <= i < s.len() implies is_digit(#[trigger] s[i]) by {
            if i < prev.len() {
                assert(s[i] == prev[i]);
            }
        }
        if prev.len() == 1 {
            assert(n / 10 < 10) by {
                if n / 10 >= 10 {
                    lemma_dec_digits_wf(n / 10 / 10);
                }
            }
            assert(prev[0] == (48 + n / 10) as u8);
            assert(s[0] != 48);
        } else {
            assert(s[0] == prev[0]);
        }
    }
}

pub proof fn lemma_seq_val_of_dec_digits(n: nat)
    ensures
        seq_val(dec_digits(n)) == n,
    decreases n,
{
    if n < 10 {
        let s = dec_digits(n);
        assert(s.drop_last() =~= Seq::<u8>::empty());
        assert(seq_val(Seq::<u8>::empty()) == 0);
        assert(seq_val(s) == 0 * 10 + ((48 + n) as u8 - 48));
    } else {
        lemma_seq_val_of_dec_digits(n / 10);
        let s = dec_digits(n);
        let prev = dec_digits(n / 10);
        assert(s == prev.push((48 + n % 10) as u8));
        assert(s.drop_last() =~= prev);
        assert(s.last() == (48 + n % 10) as u8);
        assert(n % 10 < 10);
        assert(seq_val(s) == (n / 10) * 10 + n % 10);
        vstd::arithmetic::div_mod::lemma_fundamental_div_mod(n as int, 10);
    }
}

pub proof fn lemma_seq_val_bounds(s: Seq<u8>)
    requires
        all_digits(s),
    ensures
        seq_val(s) >= 0,
        s.len() >= 1 && s[0] != 48 ==> seq_val(s) >= 1,
    decreases s.len(),
{
    if s.len() == 0 {
    } else {
        let dl = s.drop_last();
        assert forall|i: int| 0 <= i < dl.len() implies is_digit(#[trigger] dl[i]) by {
            assert(dl[i] == s[i]);
        }
        lemma_seq_val_bounds(dl);
        assert(is_digit(s.last()));
        if s.len() >= 2 && s[0] != 48 {
            assert(dl[0] == s[0]);
            assert(seq_val(dl) >= 1);
        }
    }
}

/// A nonempty all-digit string without a leading zero is exactly the
/// canonical rendering of its own value.
pub proof fn lemma_canon_digits(s: Seq<u8>)
    requires
        all_digits(s),
        s.len() >= 1,
        s.len() > 1 ==> s[0] != 48,
    ensures
        seq_val(s) >= 0,
        dec_digits(seq_val(s) as nat) == s,
    decreases s.len(),
{
    lemma_seq_val_bounds(s);
    if s.len() == 1 {
        assert(s.drop_last() =~= Seq::<u8>::empty());
        assert(seq_val(Seq::<u8>::empty()) == 0);
        assert(seq_val(s) == s[0] - 48);
        assert(dec_digits((s[0] - 48) as nat) =~= s);
    } else {
        let dl = s.drop_last();
        assert forall|i: int| 0 <= i < dl.len() implies is_digit(#[trigger] dl[i]) by {
            assert(dl[i] == s[i]);
        }
        assert(dl[0] == s[0]);
        lemma_canon_digits(dl);
        lemma_seq_val_bounds(dl);
        let v = seq_val(s);
        let d = s.last() - 48;
        assert(0 <= d < 10);
        assert(v == seq_val(dl) * 10 + d);
        assert(v >= 10) by (nonlinear_arith)
            requires v == seq_val(dl) * 10 + d, seq_val(dl) >= 1, d >= 0;
        vstd::arithmetic::div_mod::lemma_fundamental_div_mod_converse(v, 10, seq_val(dl), d);
        assert(dec_digits(v as nat) == dec_digits((v / 10) as nat).push((48 + v % 10) as u8));
        assert(dec_digits((v / 10) as nat) == dl);
        assert(s =~= dl.push(s.last()));
    }
}

/// Canonical renderings are injective: equal digit strings mean equal values.
pub proof fn lemma_dec_digits_injective(m: nat, n: nat)
    requires
        dec_digits(m) == dec_digits(n),
    ensures
        m == n,
{
    lemma_seq_val_of_dec_digits(m);
    lemma_seq_val_of_dec_digits(n);
}

/// The value of a digit string dominates the value of each of its prefixes.
pub proof fn lemma_seq_val_prefix(s: Seq<u8>, j: int)
    requires
        all_digits(s),
        0 <= j <= s.len(),
    ensures
        seq_val(s.take(j)) <= seq_val(s),
    decreases s.len() - j,
{
    if j == s.len() {
        assert(s.take(j) =~= s);
    } else {
        let dl = s.drop_last();
        assert forall|i: int| 0 <= i < dl.len() implies is_digit(#[trigger] dl[i]) by {
            assert(dl[i] == s[i]);
        }
        assert(s.take(j) =~= dl.take(j));
        lemma_seq_val_prefix(dl, j);
        lemma_seq_val_bounds(dl);
        assert(is_digit(s.last()));
        assert(seq_val(s) == seq_val(dl) * 10 + (s.last() - 48));
        assert(seq_val(dl) * 10 >= seq_val(dl)) by (nonlinear_arith)
            requires seq_val(dl) >= 0;
    }
}

pub proof fn lemma_digit_run_basic(s: Seq<u8>, i: int)
    requires
        0 <= i <= s.len(),
    ensures
        i <= digit_run_end(s, i) <= s.len(),
        forall|k: int| i <= k < digit_run_end(s, i) ==> is_digit(#[trigger] s[k]),
        digit_run_end(s, i) < s.len() ==> !is_digit(s[digit_run_end(s, i)]),
    decreases s.len() - i,
{
    if i == s.len() {
    } else if is_digit(s[i]) {
        lemma_digit_run_basic(s, i + 1);
    } else {
    }
}

/// The digit run boundary is unique: a stretch of digits from `i` up to a
/// non-digit (or the end) at `e` pins `digit_run_end` to `e`.
pub proof fn lemma_digit_run_boundary(s: Seq<u8>, i: int, e: int)
    requires
        0 <= i <= e <= s.len(),
        forall|k: int| i <= k < e ==> is_digit(#[trigger] s[k]),
        e < s.len() ==> !is_digit(s[e]),
    ensures
        digit_run_end(s, i) == e,
    decreases e - i,
{
    if i == e {
    } else {
        assert(is_digit(s[i]));
        lemma_digit_run_boundary(s, i + 1, e);
    }
}

/// Whether `c` is an ASCII digit.
pub fn digit_byte(c: u8) -> (r: bool)
    ensures
        r == is_digit(c),
{
    48 <= c && c <= 57
}

/// Appends the canonical decimal rendering of `n` to `out`.
pub fn push_num(out: &mut Vec<u8>, n: u16)
    ensures
        final(out)@ == old(out)@ + dec_digits(n as nat),
    decreases n,
{
    let ghost pre = out@;
    if n >= 10 {
        push_num(out, n / 10);
        out.push(48 + (n % 10) as u8);
        proof {
            assert(out@ =~= pre + dec_digits(n as nat));
        }
    } else {
        out.push(48 + n as u8);
        proof {
            assert(out@ =~= pre + dec_digits(n as nat));
        }
    }
}

/// What `scan_num` promises: on success it hands back the value of the
/// maximal canonical digit run starting at `start`, together with the run's
/// end; on failure no value up to `max` has its canonical rendering there.
pub open spec fn scan_ok(s: Seq<u8>, start: int, max: nat, r: Option<(u32, usize)>) -> bool {
    match r {
        Some(p) => {
            &&& p.1 == digit_run_end(s, start)
            &&& start < p.1 <= s.len()
            &&& p.0 <= max
            &&& s.subrange(start, p.1 as int) == dec_digits(p.0 as nat)
        },
        None => forall|v: nat| v <= max ==> s.subrange(start, digit_run_end(s, start)) != dec_digits(v),
    }
}

/// Reads the maximal digit run starting at `start` as a canonical decimal
/// number no greater than `max`. Rejects an empty run, a leading zero and
/// an out-of-range value.
pub fn scan_num(buf: &Vec<u8>, start: usize, max: u32) -> (r: Option<(u32, usize)>)
    requires
        start <= buf@.len(),
        9 <= max <= 0xFFFF,
    ensures
        scan_ok(buf@, start as int, max as nat, r),
{
    let ghost s = buf@;
    let n = buf.len();
    if start >= n || !digit_byte(buf[start]) {
        proof {
            lemma_digit_run_boundary(s, start as int, start as int);
            assert forall|v: nat| v <= max as nat
                implies s.subrange(start as int, start as int) != dec_digits(v) by {
                lemma_dec_digits_wf(v);
            }
        }
        return None;
    }
    if buf[start] == 48 {
        if start + 1 < n && digit_byte(buf[start + 1]) {
            proof {
                assert(digit_run_end(s, start as int) == digit_run_end(s, start as int + 1));
                assert(digit_run_end(s, start as int + 1) == digit_run_end(s, start as int + 2));
                lemma_digit_run_basic(s, start as int + 2);
                let e = digit_run_end(s, start as int);
                assert(e >= start as int + 2);
                assert forall|v: nat| v <= max as nat
                    implies s.subrange(start as int, e) != dec_digits(v) by {
                    lemma_dec_digits_wf(v);
                    if s.subrange(start as int, e) == dec_digits(v) {
                        assert(dec_digits(v).len() >= 2);
                        assert(dec_digits(v)[0] == s[start as int]);
                        assert(false);
                    }
                }
            }
            return None;
        }
        proof {
            lemma_digit_run_boundary(s, start as int + 1, start as int + 1);
            assert(digit_run_end(s, start as int) == start as int + 1);
            assert(s.subrange(start as int, start as int + 1) =~= seq![48u8]);
            assert(dec_digits(0) =~= seq![48u8]);
        }
        return Some((0, start + 1));
    }
    let mut v: u32 = (buf[start] - 48) as u32;
    let mut i: usize = start + 1;
    proof {
        assert(s.subrange(start as int, start as int + 1) =~= seq![s[start as int]]);
        assert(s.subrange(start as int, start as int + 1).drop_last() =~= Seq::<u8>::empty());
        assert(seq_val(Seq::<u8>::empty()) == 0);
        assert(s.subrange(start as int, start as int + 1).last() == s[start as int]);
        assert(digit_run_end(s, start as int) == digit_run_end(s, start as int + 1));
    }
    while i < n && digit_byte(buf[i])
        invariant
            s == buf@,
            n == s.len(),
            start < i <= n,
            9 <= max <= 0xFFFF,
            is_digit(s[start as int]),
            s[start as int] != 48,
            all_digits(s.subrange(start as int, i as int)),
            v as int == seq_val(s.subrange(start as int, i as int)),
            v <= max,
            digit_run_end(s, start as int) == digit_run_end(s, i as int),
        decreases n - i,
    {
        let d = buf[i] - 48;
        let vn: u32 = v * 10 + d as u32;
        proof {
            let cur = s.subrange(start as int, i as int);
            let ext = s.subrange(start as int, i as int + 1);
            assert(ext.drop_last() =~= cur);
            assert(ext.last() == s[i as int]);
            assert(seq_val(ext) == v * 10 + (s[i as int] - 48));
            assert forall|k: int| 0 <= k < ext.len() implies is_digit(#[trigger] ext[k]) by {
                if k < cur.len() {
                    assert(ext[k] == cur[k]);
                }
            }
        }
        if vn > max {
            proof {
                assert(digit_run_end(s, i as int) == digit_run_end(s, i as int + 1));
                lemma_digit_run_basic(s, i as int + 1);
                let e = digit_run_end(s, start as int);
                assert(e >= i as int + 1);
                lemma_digit_run_basic(s, start as int);
                let run = s.subrange(start as int, e);
                assert forall|k: int| 0 <= k < run.len() implies is_digit(#[trigger] run[k]) by {
                    assert(run[k] == s[start as int + k]);
                }
                assert forall|v2: nat| v2 <= max as nat
                    implies run != dec_digits(v2) by {
                    if run == dec_digits(v2) {
                        lemma_seq_val_of_dec_digits(v2);
                        lemma_seq_val_prefix(run, i as int + 1 - start as int);
                        assert(run.take(i as int + 1 - start as int) =~= s.subrange(start as int, i as int + 1));
                        assert(seq_val(run) >= vn);
                        assert(false);
                    }
                }
            }
            return None;
        }
        v = vn;
        i = i + 1;
        proof {
            assert(digit_run_end(s, i as int - 1) == digit_run_end(s, i as int));
        }
    }
    proof {
        lemma_digit_run_boundary(s, i as int, i as int);
        let run = s.subrange(start as int, i as int);
        assert(run[0] == s[start as int]);
        lemma_canon_digits(run);
    }
    Some((v, i))
}

} // verus!
